//! Exact rational numbers. The value is held as plain data (sign, magnitude
//! and denominator as little-endian bytes, always in lowest terms) and every
//! arithmetic step is delegated to `dashu`'s arbitrary-precision `RBig`.
use vstd::prelude::*;
use dashu::integer::{IBig, UBig};
use dashu::rational::RBig;
use dashu::base::SquareRootRem;
use dashu::base::BitTest;
use crate::uncertain::{Sign, sign_of_int};

verus! {

/// The value of little-endian base-256 digits.
pub open spec fn le_value(s: Seq<u8>) -> nat
    decreases s.len(),
{
    if s.len() == 0 {
        0
    } else {
        s[0] as nat + 256 * le_value(s.drop_first())
    }
}

/// Greatest common divisor (Euclid); `gcd(0, 0) == 0`.
pub open spec fn gcd(a: nat, b: nat) -> nat
    decreases b,
{
    if b == 0 {
        a
    } else {
        gcd(b, a % b)
    }
}

/// Absolute value.
pub open spec fn abs(x: int) -> nat {
    if x < 0 {
        (-x) as nat
    } else {
        x as nat
    }
}

/// Number of binary digits of `n` (`0` for zero).
pub open spec fn bit_length(n: nat) -> nat
    decreases n,
{
    if n == 0 {
        0
    } else {
        1 + bit_length(n / 2)
    }
}

/// `a²`.
pub open spec fn square(a: nat) -> nat {
    a * a
}

/// Bit lengths of numerator and denominator together.
pub open spec fn bits_of(q: Q) -> nat {
    bit_length(abs(q.0)) + bit_length(q.1 as nat)
}

/// [`bits_of`], saturated at `u64::MAX`.
pub open spec fn bit_size_of(q: Q) -> u64 {
    if bits_of(q) >= u64::MAX {
        u64::MAX
    } else {
        bits_of(q) as u64
    }
}

/// A rational number as `(numerator, denominator)`.
pub type Q = (int, int);

/// In lowest terms with a positive denominator.
pub open spec fn canonical(q: Q) -> bool {
    q.1 > 0 && gcd(abs(q.0), q.1 as nat) == 1
}

/// `n / d` in lowest terms (for `d > 0`).
pub open spec fn reduce(n: int, d: int) -> Q {
    let g = gcd(abs(n), d as nat) as int;
    (n / g, d / g)
}

/// The integer `i` as a rational.
pub open spec fn qint(i: int) -> Q {
    (i, 1)
}

/// Sum in lowest terms.
pub open spec fn qadd(a: Q, b: Q) -> Q {
    reduce(a.0 * b.1 + b.0 * a.1, a.1 * b.1)
}

/// Difference in lowest terms.
pub open spec fn qsub(a: Q, b: Q) -> Q {
    reduce(a.0 * b.1 - b.0 * a.1, a.1 * b.1)
}

/// Product in lowest terms.
pub open spec fn qmul(a: Q, b: Q) -> Q {
    reduce(a.0 * b.0, a.1 * b.1)
}

/// Quotient in lowest terms (for `b.0 != 0`).
pub open spec fn qdiv(a: Q, b: Q) -> Q {
    if b.0 < 0 {
        reduce(-(a.0 * b.1), a.1 * (-b.0))
    } else {
        reduce(a.0 * b.1, a.1 * b.0)
    }
}

/// Negation.
pub open spec fn qneg(a: Q) -> Q {
    (-a.0, a.1)
}

/// Absolute value.
pub open spec fn qabs(a: Q) -> Q {
    (abs(a.0) as int, a.1)
}

/// Strict order (denominators positive).
pub open spec fn qlt(a: Q, b: Q) -> bool {
    a.0 * b.1 < b.0 * a.1
}

/// Order (denominators positive).
pub open spec fn qle(a: Q, b: Q) -> bool {
    a.0 * b.1 <= b.0 * a.1
}

/// An exact rational number in lowest terms.
#[derive(Debug)]
pub struct Rational {
    neg: bool,
    num: Vec<u8>,
    den: Vec<u8>,
}

impl View for Rational {
    type V = Q;

    closed spec fn view(&self) -> Q {
        (if self.neg {
            -le_value(self.num@)
        } else {
            le_value(self.num@) as int
        }, le_value(self.den@) as int)
    }
}

impl Rational {
    #[verifier::type_invariant]
    closed spec fn in_lowest_terms(self) -> bool {
        canonical(self@)
    }

    /// Every rational is held in lowest terms with a positive denominator
    /// (a no-op that makes this fact available to a caller's proof).
    pub fn lowest_terms(&self)
        ensures
            canonical(self@),
    {
        proof {
            use_type_invariant(self);
        }
    }
}

#[verifier::external_type_specification]
#[verifier::external_body]
pub struct ExRBig(RBig);

/// Build `dashu`'s `RBig` from the plain representation.
#[verifier::external_body]
fn to_rbig(x: &Rational) -> RBig {
    let magnitude = IBig::from(UBig::from_le_bytes(&x.num));
    let numerator = if x.neg { -magnitude } else { magnitude };
    RBig::from_parts(numerator, UBig::from_le_bytes(&x.den))
}

/// Read `dashu`'s `RBig` back into the plain representation.
#[verifier::external_body]
fn from_rbig(x: RBig) -> Rational {
    let (numerator, denominator) = x.into_parts();
    let (sign, magnitude) = numerator.into_parts();
    Rational {
        neg: sign == dashu::base::Sign::Negative,
        num: magnitude.to_le_bytes().into_vec(),
        den: denominator.to_le_bytes().into_vec(),
    }
}

/// `RBig + RBig`: the exact sum, in lowest terms.
#[verifier::external_body]
fn rbig_add(a: &Rational, b: &Rational) -> (r: Rational)
    ensures
        r@ == qadd(a@, b@),
{
    from_rbig(to_rbig(a) + to_rbig(b))
}

/// `RBig - RBig`: the exact difference, in lowest terms.
#[verifier::external_body]
fn rbig_sub(a: &Rational, b: &Rational) -> (r: Rational)
    ensures
        r@ == qsub(a@, b@),
{
    from_rbig(to_rbig(a) - to_rbig(b))
}

/// `RBig * RBig`: the exact product, in lowest terms.
#[verifier::external_body]
fn rbig_mul(a: &Rational, b: &Rational) -> (r: Rational)
    ensures
        r@ == qmul(a@, b@),
{
    from_rbig(to_rbig(a) * to_rbig(b))
}

/// `RBig / RBig` for a nonzero divisor (it panics on zero): the exact
/// quotient, in lowest terms.
#[verifier::external_body]
fn rbig_div(a: &Rational, b: &Rational) -> (r: Rational)
    requires
        b@.0 != 0,
    ensures
        r@ == qdiv(a@, b@),
{
    from_rbig(to_rbig(a) / to_rbig(b))
}

/// `RBig < RBig`: the order of rationals.
#[verifier::external_body]
fn rbig_lt(a: &Rational, b: &Rational) -> (r: bool)
    ensures
        r == qlt(a@, b@),
{
    to_rbig(a) < to_rbig(b)
}

/// `RBig == RBig`: equality of values, which for the reduced form `RBig`
/// keeps is equality of numerator and denominator.
#[verifier::external_body]
fn rbig_eq(a: &Rational, b: &Rational) -> (r: bool)
    ensures
        r == (a@ == b@),
{
    to_rbig(a) == to_rbig(b)
}

/// `RBig::from(i64)`: the integer as a rational.
#[verifier::external_body]
fn rbig_from_i64(i: i64) -> (r: Rational)
    ensures
        r@ == qint(i as int),
{
    from_rbig(RBig::from(i))
}

/// `RBig::from(u64)`: the integer as a rational.
#[verifier::external_body]
fn rbig_from_u64(i: u64) -> (r: Rational)
    ensures
        r@ == qint(i as int),
{
    from_rbig(RBig::from(i))
}

/// `UBig::bit_len`: the number of binary digits of a magnitude.
#[verifier::external_body]
fn ubig_bit_len(bytes: &Vec<u8>) -> (r: usize)
    ensures
        r == bit_length(le_value(bytes@)),
{
    UBig::from_le_bytes(bytes).bit_len()
}

/// `UBig::sqrt_rem` (from `SquareRootRem`): the integer square root `s` and
/// remainder `r` of a magnitude `n`, with `s² + r == n < (s + 1)²`.
#[verifier::external_body]
fn ubig_sqrt_rem(bytes: &Vec<u8>) -> (r: (Vec<u8>, Vec<u8>))
    ensures
        le_value(r.0@) * le_value(r.0@) + le_value(r.1@) == le_value(bytes@),
        le_value(bytes@) < (le_value(r.0@) + 1) * (le_value(r.0@) + 1),
{
    let (s, rem) = UBig::from_le_bytes(bytes).sqrt_rem();
    (s.to_le_bytes().into_vec(), rem.to_le_bytes().into_vec())
}

/// `RBig::from_parts`: the rational `±num / den` (`den > 0`), in lowest terms.
#[verifier::external_body]
fn rbig_from_parts(neg: bool, num: &Vec<u8>, den: &Vec<u8>) -> (r: Rational)
    requires
        le_value(den@) > 0,
    ensures
        r@ == reduce(if neg { -le_value(num@) } else { le_value(num@) as int }, le_value(den@) as int),
{
    let magnitude = IBig::from(UBig::from_le_bytes(num));
    let numerator = if neg { -magnitude } else { magnitude };
    from_rbig(RBig::from_parts(numerator, UBig::from_le_bytes(den)))
}

proof fn lemma_le_value_zero(s: Seq<u8>)
    ensures
        (le_value(s) == 0) <==> (forall|i: int| 0 <= i < s.len() ==> s[i] == 0),
    decreases s.len(),
{
    if s.len() > 0 {
        lemma_le_value_zero(s.drop_first());
        if le_value(s) == 0 {
            assert forall|i: int| 0 <= i < s.len() implies s[i] == 0 by {
                if i > 0 {
                    assert(s[i] == s.drop_first()[i - 1]);
                }
            }
        }
        if forall|i: int| 0 <= i < s.len() ==> s[i] == 0 {
            assert forall|i: int| 0 <= i < s.drop_first().len() implies s.drop_first()[i] == 0 by {
                assert(s.drop_first()[i] == s[i + 1]);
            }
        }
    }
}

fn bytes_are_zero(s: &Vec<u8>) -> (r: bool)
    ensures
        r == (le_value(s@) == 0),
{
    proof {
        lemma_le_value_zero(s@);
    }
    let mut i: usize = 0;
    while i < s.len()
        invariant
            i <= s@.len(),
            forall|j: int| 0 <= j < i ==> s@[j] == 0,
        decreases s@.len() - i,
    {
        if s[i] != 0 {
            proof {
                lemma_le_value_zero(s@);
                assert(s@[i as int] != 0);
            }
            return false;
        }
        i = i + 1;
    }
    proof {
        lemma_le_value_zero(s@);
    }
    true
}

fn copy_bytes(s: &Vec<u8>) -> (r: Vec<u8>)
    ensures
        r@ == s@,
{
    let mut r: Vec<u8> = Vec::new();
    let mut i: usize = 0;
    while i < s.len()
        invariant
            i <= s@.len(),
            r@ == s@.subrange(0, i as int),
        decreases s@.len() - i,
    {
        r.push(s[i]);
        i = i + 1;
        proof {
            assert(r@ =~= s@.subrange(0, i as int));
        }
    }
    proof {
        assert(s@.subrange(0, s@.len() as int) =~= s@);
    }
    r
}

impl Clone for Rational {
    fn clone(&self) -> (r: Self)
        ensures
            r@ == self@,
    {
        proof {
            use_type_invariant(self);
        }
        Rational { neg: self.neg, num: copy_bytes(&self.num), den: copy_bytes(&self.den) }
    }
}

impl PartialEq for Rational {
    fn eq(&self, other: &Self) -> (r: bool) {
        rbig_eq(self, other)
    }
}

impl vstd::std_specs::cmp::PartialEqSpecImpl for Rational {
    open spec fn obeys_eq_spec() -> bool {
        true
    }

    open spec fn eq_spec(&self, other: &Self) -> bool {
        self@ == other@
    }
}

impl Eq for Rational {}

impl Rational {
    /// Zero.
    pub fn zero() -> (r: Rational)
        ensures
            r@ == qint(0),
    {
        let mut den: Vec<u8> = Vec::new();
        den.push(1u8);
        proof {
            assert(den@ =~= seq![1u8]);
            assert(le_value(seq![1u8].drop_first()) == 0);
            assert(le_value(den@) == 1);
            assert(gcd(0, 1) == 1) by {
                assert(gcd(1, 0) == 1);
            }
        }
        let r = Rational { neg: false, num: Vec::new(), den };
        proof {
            assert(r.den@ =~= seq![1u8]);
            assert(le_value(seq![1u8].drop_first()) == 0);
            assert(le_value(r.den@) == 1);
            assert(le_value(r.num@) == 0);
            assert(gcd(0, 1) == 1) by {
                assert(gcd(1, 0) == 1);
            }
        }
        r
    }

    /// One.
    pub fn one() -> (r: Rational)
        ensures
            r@ == qint(1),
    {
        let mut den: Vec<u8> = Vec::new();
        den.push(1u8);
        let mut num: Vec<u8> = Vec::new();
        num.push(1u8);
        proof {
            assert(den@ =~= seq![1u8]);
            assert(num@ =~= seq![1u8]);
            assert(le_value(seq![1u8].drop_first()) == 0);
            assert(le_value(den@) == 1);
            assert(gcd(1, 1) == 1) by {
                assert(gcd(1, 0) == 1);
            }
        }
        let r = Rational { neg: false, num, den };
        proof {
            assert(r.den@ =~= seq![1u8]);
            assert(r.num@ =~= seq![1u8]);
            assert(le_value(seq![1u8].drop_first()) == 0);
            assert(le_value(r.den@) == 1);
            assert(le_value(r.num@) == 1);
            assert(gcd(1, 1) == 1) by {
                assert(gcd(1, 0) == 1);
            }
        }
        r
    }

    /// The integer `i`.
    pub fn from_i64(i: i64) -> (r: Rational)
        ensures
            r@ == qint(i as int),
    {
        rbig_from_i64(i)
    }

    /// The integer `i`.
    pub fn from_u64(i: u64) -> (r: Rational)
        ensures
            r@ == qint(i as int),
    {
        rbig_from_u64(i)
    }

    /// The rational `num / den`. The denominator must be nonzero.
    pub fn from_ratio(num: i64, den: i64) -> (r: Rational)
        requires
            den != 0,
        ensures
            r@ == qdiv(qint(num as int), qint(den as int)),
    {
        let n = Rational::from_i64(num);
        let d = Rational::from_i64(den);
        n.div(&d)
    }

    /// Exact sum.
    pub fn add(&self, rhs: &Rational) -> (r: Rational)
        ensures
            r@ == qadd(self@, rhs@),
    {
        rbig_add(self, rhs)
    }

    /// Exact difference.
    pub fn sub(&self, rhs: &Rational) -> (r: Rational)
        ensures
            r@ == qsub(self@, rhs@),
    {
        rbig_sub(self, rhs)
    }

    /// Exact product.
    pub fn mul(&self, rhs: &Rational) -> (r: Rational)
        ensures
            r@ == qmul(self@, rhs@),
    {
        rbig_mul(self, rhs)
    }

    /// Exact quotient by a nonzero rational.
    pub fn div(&self, rhs: &Rational) -> (r: Rational)
        requires
            rhs@.0 != 0,
        ensures
            r@ == qdiv(self@, rhs@),
    {
        rbig_div(self, rhs)
    }

    /// Negation.
    pub fn neg(&self) -> (r: Rational)
        ensures
            r@ == qneg(self@),
    {
        proof {
            use_type_invariant(self);
        }
        let r = Rational { neg: !self.neg, num: copy_bytes(&self.num), den: copy_bytes(&self.den) };
        proof {
            assert(abs(r@.0) == abs(self@.0));
        }
        r
    }

    /// Absolute value.
    pub fn abs(&self) -> (r: Rational)
        ensures
            r@ == qabs(self@),
    {
        proof {
            use_type_invariant(self);
        }
        let r = Rational { neg: false, num: copy_bytes(&self.num), den: copy_bytes(&self.den) };
        proof {
            assert(abs(r@.0) == abs(self@.0));
        }
        r
    }

    /// Exact sign.
    pub fn sign(&self) -> (r: Sign)
        ensures
            r == sign_of_int(self@.0),
    {
        if bytes_are_zero(&self.num) {
            Sign::Zero
        } else if self.neg {
            Sign::Negative
        } else {
            Sign::Positive
        }
    }

    /// Is this exactly zero?
    pub fn is_zero(&self) -> (r: bool)
        ensures
            r == (self@.0 == 0),
    {
        bytes_are_zero(&self.num)
    }

    /// `self < rhs`.
    pub fn lt(&self, rhs: &Rational) -> (r: bool)
        ensures
            r == qlt(self@, rhs@),
    {
        rbig_lt(self, rhs)
    }

    /// `self <= rhs`.
    pub fn le(&self, rhs: &Rational) -> (r: bool)
        ensures
            r == qle(self@, rhs@),
    {
        !rbig_lt(rhs, self)
    }

    /// Coefficient size: the bit lengths of numerator and denominator
    /// together.
    pub fn bit_size(&self) -> (r: u64)
        ensures
            r == bit_size_of(self@),
    {
        let a = ubig_bit_len(&self.num);
        let b = ubig_bit_len(&self.den);
        proof {
            assert(abs(self@.0) == le_value(self.num@));
        }
        let total = a as u128 + b as u128;
        if total >= u64::MAX as u128 {
            u64::MAX
        } else {
            total as u64
        }
    }

    /// The exact square root, when this rational is the square of a
    /// rational: both numerator and denominator are perfect squares.
    pub fn sqrt_exact(&self) -> (r: Option<Rational>)
        ensures
            r is Some <==> (self@.0 >= 0 && exists|a: nat, b: nat|
                #![trigger square(a), square(b)]
                square(a) == self@.0 && square(b) == self@.1),
            r matches Some(s) ==> exists|a: nat, b: nat|
                #![trigger square(a), square(b)]
                square(a) == self@.0 && square(b) == self@.1 && s@ == reduce(a as int, b as int),
    {
        proof {
            use_type_invariant(self);
        }
        if self.neg && !bytes_are_zero(&self.num) {
            return None;
        }
        let (sn, rn) = ubig_sqrt_rem(&self.num);
        let (sd, rd) = ubig_sqrt_rem(&self.den);
        let ghost n = le_value(self.num@);
        let ghost d = le_value(self.den@);
        let ghost a = le_value(sn@);
        let ghost b = le_value(sd@);
        if !bytes_are_zero(&rn) || !bytes_are_zero(&rd) {
            proof {
                assert forall|x: nat, y: nat| #![trigger square(x), square(y)] !(square(x) == self@.0 && square(y) == self@.1) by {
                    if x * x == n && y * y == d {
                        lemma_isqrt_unique(n, a, x);
                        lemma_isqrt_unique(d, b, y);
                    }
                }
            }
            return None;
        }
        proof {
            assert(b > 0) by {
                if b == 0 {
                    assert(le_value(rd@) == 0);
                    assert(b * b == 0) by (nonlinear_arith)
                        requires
                            b == 0,
                    ;
                    assert(d == 0);
                }
            }
        }
        let s = rbig_from_parts(false, &sn, &sd);
        proof {
            assert(square(a) == self@.0 && square(b) == self@.1);
        }
        Some(s)
    }
}

/// The integer square root is unique: if `a² <= n < (a+1)²` and `x² == n`
/// then `x == a`.
proof fn lemma_isqrt_unique(n: nat, a: nat, x: nat)
    requires
        a * a <= n < (a + 1) * (a + 1),
        x * x == n,
    ensures
        x == a,
{
    if x < a {
        assert(x * x < a * a) by (nonlinear_arith)
            requires
                x < a,
        ;
    } else if x > a {
        assert((a + 1) * (a + 1) <= x * x) by (nonlinear_arith)
            requires
                x >= a + 1,
        ;
    }
}


/// `gcd(0, d) == d`.
pub proof fn lemma_gcd_zero_left(d: nat)
    ensures
        gcd(0, d) == d,
{
    if d > 0 {
        assert(0nat % d == 0);
        assert(gcd(d, 0) == d);
    }
}

/// `gcd(p, p) == p`.
pub proof fn lemma_gcd_self(p: nat)
    ensures
        gcd(p, p) == p,
{
    if p > 0 {
        assert(p % p == 0) by (nonlinear_arith)
            requires
                p > 0,
        ;
        assert(gcd(p, 0) == p);
    }
}

/// Reducing a fraction already in lowest terms changes nothing.
pub proof fn lemma_reduce_canonical(q: Q)
    requires
        canonical(q),
    ensures
        reduce(q.0, q.1) == q,
{
}

/// `0 / d` reduces to `0 / 1`.
pub proof fn lemma_reduce_zero(d: int)
    requires
        d > 0,
    ensures
        reduce(0, d) == qint(0),
{
    lemma_gcd_zero_left(d as nat);
    assert(d / d == 1) by (nonlinear_arith)
        requires
            d > 0,
    ;
}

/// A canonical zero is `0 / 1`.
pub proof fn lemma_canonical_zero(x: Q)
    requires
        canonical(x),
        x.0 == 0,
    ensures
        x == qint(0),
{
    lemma_gcd_zero_left(x.1 as nat);
}

/// `p / p` reduces to `1 / 1` for `p > 0`.
pub proof fn lemma_reduce_self(p: int)
    requires
        p > 0,
    ensures
        reduce(p, p) == qint(1),
{
    lemma_gcd_self(p as nat);
    assert(p / p == 1) by (nonlinear_arith)
        requires
            p > 0,
    ;
}

/// Multiplying by zero gives the canonical zero.
pub proof fn lemma_qmul_zero(f: Q, y: Q)
    requires
        f.1 > 0,
        y.1 > 0,
        y.0 == 0,
    ensures
        qmul(f, y) == qint(0),
{
    assert(f.0 * y.0 == 0);
    assert(f.1 * y.1 > 0) by (nonlinear_arith)
        requires
            f.1 > 0,
            y.1 > 0,
    ;
    lemma_reduce_zero(f.1 * y.1);
}

/// `x - 0 == x` for `x` in lowest terms.
pub proof fn lemma_qsub_zero(x: Q)
    requires
        canonical(x),
    ensures
        qsub(x, qint(0)) == x,
{
    assert(x.0 * 1 - 0 * x.1 == x.0);
    assert(x.1 * 1 == x.1);
    lemma_reduce_canonical(x);
}

/// `x - f·y == x` when `y` is zero.
pub proof fn lemma_qsub_zero_product(x: Q, f: Q, y: Q)
    requires
        canonical(x),
        f.1 > 0,
        y.1 > 0,
        y.0 == 0,
    ensures
        qsub(x, qmul(f, y)) == x,
{
    lemma_qmul_zero(f, y);
    lemma_qsub_zero(x);
}

/// `f - f·1 == 0`.
pub proof fn lemma_qsub_self_unit(f: Q)
    requires
        canonical(f),
    ensures
        qsub(f, qmul(f, qint(1))) == qint(0),
{
    assert(f.0 * 1 == f.0);
    assert(f.1 * 1 == f.1);
    lemma_reduce_canonical(f);
    assert(f.0 * f.1 - f.0 * f.1 == 0);
    assert(f.1 * f.1 > 0) by (nonlinear_arith)
        requires
            f.1 > 0,
    ;
    lemma_reduce_zero(f.1 * f.1);
}

/// `d / d == 1` for nonzero `d`.
pub proof fn lemma_qdiv_self(d: Q)
    requires
        d.1 > 0,
        d.0 != 0,
    ensures
        qdiv(d, d) == qint(1),
{
    if d.0 < 0 {
        assert(-(d.0 * d.1) == d.1 * (-d.0)) by (nonlinear_arith);
        assert(d.1 * (-d.0) > 0) by (nonlinear_arith)
            requires
                d.1 > 0,
                d.0 < 0,
        ;
        lemma_reduce_self(d.1 * (-d.0));
    } else {
        assert(d.0 * d.1 == d.1 * d.0) by (nonlinear_arith);
        assert(d.1 * d.0 > 0) by (nonlinear_arith)
            requires
                d.1 > 0,
                d.0 > 0,
        ;
        lemma_reduce_self(d.1 * d.0);
    }
}

/// `0 / d == 0` for nonzero `d`.
pub proof fn lemma_qdiv_zero(x: Q, d: Q)
    requires
        x.0 == 0,
        x.1 > 0,
        d.1 > 0,
        d.0 != 0,
    ensures
        qdiv(x, d) == qint(0),
{
    if d.0 < 0 {
        assert(x.1 * (-d.0) > 0) by (nonlinear_arith)
            requires
                x.1 > 0,
                d.0 < 0,
        ;
        lemma_reduce_zero(x.1 * (-d.0));
    } else {
        assert(x.1 * d.0 > 0) by (nonlinear_arith)
            requires
                x.1 > 0,
                d.0 > 0,
        ;
        lemma_reduce_zero(x.1 * d.0);
    }
}


/// `gcd(a, b) == gcd(b, a)`.
pub proof fn lemma_gcd_comm(a: nat, b: nat)
    ensures
        gcd(a, b) == gcd(b, a),
{
    if a < b {
        assert(a % b == a) by (nonlinear_arith)
            requires
                a < b,
        ;
        assert(gcd(a, b) == gcd(b, a % b));
    } else if b < a {
        assert(b % a == b) by (nonlinear_arith)
            requires
                b < a,
        ;
        assert(gcd(b, a) == gcd(a, b % a));
    }
}

/// `l · (1 / l) == 1` for nonzero `l` in lowest terms.
pub proof fn lemma_qmul_inverse(l: Q)
    requires
        canonical(l),
        l.0 != 0,
    ensures
        qmul(l, qdiv(qint(1), l)) == qint(1),
{
    lemma_gcd_comm(abs(l.0), l.1 as nat);
    if l.0 < 0 {
        let inv = qdiv(qint(1), l);
        assert(-(1 * l.1) == -l.1);
        assert(1 * (-l.0) == -l.0);
        assert(abs(-l.1) == l.1);
        assert(abs(l.0) == -l.0);
        assert(gcd(l.1 as nat, (-l.0) as nat) == 1);
        assert((-l.1) / 1 == -l.1);
        assert((-l.0) / 1 == -l.0);
        assert(inv == (-l.1, -l.0));
        assert(l.0 * (-l.1) == l.1 * (-l.0)) by (nonlinear_arith);
        assert(l.1 * (-l.0) > 0) by (nonlinear_arith)
            requires
                l.1 > 0,
                l.0 < 0,
        ;
        lemma_reduce_self(l.1 * (-l.0));
        assert(l.0 * inv.0 == l.1 * (-l.0));
        assert(l.1 * inv.1 == l.1 * (-l.0));
    } else {
        let inv = qdiv(qint(1), l);
        assert(1 * l.1 == l.1);
        assert(1 * l.0 == l.0);
        assert(abs(l.1) == l.1);
        assert(abs(l.0) == l.0);
        assert(gcd(l.1 as nat, l.0 as nat) == 1);
        assert(l.1 / 1 == l.1);
        assert(l.0 / 1 == l.0);
        assert(inv == (l.1, l.0));
        assert(l.0 * l.1 == l.1 * l.0) by (nonlinear_arith);
        assert(l.0 * l.1 > 0) by (nonlinear_arith)
            requires
                l.1 > 0,
                l.0 > 0,
        ;
        lemma_reduce_self(l.0 * l.1);
    }
}


/// `gcd(a, b)` is positive unless both vanish, and divides both.
pub proof fn lemma_gcd_divides(a: nat, b: nat)
    ensures
        (a > 0 || b > 0) ==> gcd(a, b) > 0 && a % gcd(a, b) == 0 && b % gcd(a, b) == 0,
    decreases b,
{
    if b == 0 {
        if a > 0 {
            vstd::arithmetic::div_mod::lemma_mod_multiples_basic(1, a as int);
            vstd::arithmetic::div_mod::lemma_mod_multiples_basic(0, a as int);
        }
    } else {
        let r = a % b;
        lemma_gcd_divides(b, r);
        let g = gcd(b, r);
        assert(gcd(a, b) == g);
        vstd::arithmetic::div_mod::lemma_fundamental_div_mod(a as int, b as int);
        vstd::arithmetic::div_mod::lemma_fundamental_div_mod(b as int, g as int);
        vstd::arithmetic::div_mod::lemma_fundamental_div_mod(r as int, g as int);
        let kb = b as int / g as int;
        let kr = r as int / g as int;
        let q = a as int / b as int;
        assert(a == g * (kb * q + kr)) by (nonlinear_arith)
            requires
                a == b * q + r,
                b == g * kb + 0,
                r == g * kr + 0,
        ;
        assert((kb * q + kr) * g == g * (kb * q + kr)) by (nonlinear_arith);
        vstd::arithmetic::div_mod::lemma_mod_multiples_basic(kb * q + kr, g as int);
    }
}

/// Reducing keeps the value: `reduce(n, d)` is `n / d` with a positive
/// denominator.
pub proof fn lemma_reduce_value(n: int, d: int)
    requires
        d > 0,
    ensures
        reduce(n, d).1 > 0,
        reduce(n, d).0 * d == n * reduce(n, d).1,
{
    let g = gcd(abs(n), d as nat);
    lemma_gcd_divides(abs(n), d as nat);
    vstd::arithmetic::div_mod::lemma_fundamental_div_mod(abs(n) as int, g as int);
    vstd::arithmetic::div_mod::lemma_fundamental_div_mod(d, g as int);
    let an = abs(n) as int / g as int;
    let dd = d / g as int;
    assert(abs(n) == g * an);
    assert(d == g * dd);
    vstd::arithmetic::div_mod::lemma_div_multiples_vanish(dd, g as int);
    assert(d / g as int == dd);
    if n >= 0 {
        assert(n == g * an);
        vstd::arithmetic::div_mod::lemma_div_multiples_vanish(an, g as int);
        assert(n / g as int == an);
    } else {
        assert(n == g * (-an)) by (nonlinear_arith)
            requires
                -n == g * an,
        ;
        vstd::arithmetic::div_mod::lemma_div_multiples_vanish(-an, g as int);
        assert(n / g as int == -an);
    }
    assert(dd > 0) by (nonlinear_arith)
        requires
            d == g * dd,
            d > 0,
            g > 0,
    ;
    assert((n / g as int) * d == n * dd) by (nonlinear_arith)
        requires
            n == g * (n / g as int),
            d == g * dd,
    ;
}

/// `x - y·(x / y)` vanishes: Euclidean division of leading terms cancels
/// exactly.
pub proof fn lemma_qdiv_mul_cancel(x: Q, y: Q)
    requires
        x.1 > 0,
        y.1 > 0,
        y.0 != 0,
    ensures
        qadd(x, qneg(qmul(y, qdiv(x, y)))).0 == 0,
        x.0 != 0 ==> qmul(y, qdiv(x, y)).0 != 0,
{
    let f = qdiv(x, y);
    if y.0 < 0 {
        assert(x.1 * (-y.0) > 0) by (nonlinear_arith)
            requires
                x.1 > 0,
                y.0 < 0,
        ;
        lemma_reduce_value(-(x.0 * y.1), x.1 * (-y.0));
        assert(f.0 * (x.1 * y.0) == (x.0 * y.1) * f.1) by (nonlinear_arith)
            requires
                f.0 * (x.1 * (-y.0)) == (-(x.0 * y.1)) * f.1,
        ;
    } else {
        assert(x.1 * y.0 > 0) by (nonlinear_arith)
            requires
                x.1 > 0,
                y.0 > 0,
        ;
        lemma_reduce_value(x.0 * y.1, x.1 * y.0);
    }
    let p = qmul(y, f);
    assert(y.1 * f.1 > 0) by (nonlinear_arith)
        requires
            y.1 > 0,
            f.1 > 0,
    ;
    lemma_reduce_value(y.0 * f.0, y.1 * f.1);
    let yf = y.1 * f.1;
    assert((p.0 * x.1) * yf == ((y.0 * f.0) * p.1) * x.1) by (nonlinear_arith)
        requires
            p.0 * yf == (y.0 * f.0) * p.1,
    ;
    assert(((y.0 * f.0) * p.1) * x.1 == (f.0 * (x.1 * y.0)) * p.1) by (nonlinear_arith);
    assert((f.0 * (x.1 * y.0)) * p.1 == ((x.0 * y.1) * f.1) * p.1) by (nonlinear_arith)
        requires
            f.0 * (x.1 * y.0) == (x.0 * y.1) * f.1,
    ;
    assert(((x.0 * y.1) * f.1) * p.1 == (x.0 * p.1) * yf) by (nonlinear_arith)
        requires
            yf == y.1 * f.1,
    ;
    assert(p.0 * x.1 == x.0 * p.1) by (nonlinear_arith)
        requires
            (p.0 * x.1) * yf == (x.0 * p.1) * yf,
            yf > 0,
    ;
    assert(x.0 * p.1 + (-p.0) * x.1 == 0) by (nonlinear_arith)
        requires
            p.0 * x.1 == x.0 * p.1,
    ;
    if x.0 != 0 {
        assert(p.0 != 0) by (nonlinear_arith)
            requires
                p.0 * x.1 == x.0 * p.1,
                x.0 != 0,
                p.1 > 0,
                x.1 > 0,
        ;
    }
    assert(x.1 * p.1 > 0) by (nonlinear_arith)
        requires
            x.1 > 0,
            p.1 > 0,
    ;
    lemma_reduce_zero(x.1 * p.1);
}


/// Reducing keeps the sign of the numerator.
pub proof fn lemma_reduce_sign(n: int, d: int)
    requires
        d > 0,
    ensures
        reduce(n, d).1 > 0,
        (reduce(n, d).0 == 0) == (n == 0),
        (reduce(n, d).0 > 0) == (n > 0),
        (reduce(n, d).0 < 0) == (n < 0),
{
    lemma_reduce_value(n, d);
    let r = reduce(n, d);
    assert((r.0 == 0) == (n == 0) && (r.0 > 0) == (n > 0) && (r.0 < 0) == (n < 0)) by (nonlinear_arith)
        requires
            r.0 * d == n * r.1,
            d > 0,
            r.1 > 0,
    ;
}


/// The midpoint `(lo + hi)·(1/2)` of `lo < hi` lies strictly between them.
pub proof fn lemma_midpoint(lo: Q, hi: Q)
    requires
        lo.1 > 0,
        hi.1 > 0,
        qlt(lo, hi),
    ensures
        qlt(lo, qmul(qadd(lo, hi), (1, 2))),
        qlt(qmul(qadd(lo, hi), (1, 2)), hi),
        qmul(qadd(lo, hi), (1, 2)).1 > 0,
{
    let p = lo.0 * hi.1 + hi.0 * lo.1;
    let d = lo.1 * hi.1;
    assert(d > 0) by (nonlinear_arith)
        requires
            d == lo.1 * hi.1,
            lo.1 > 0,
            hi.1 > 0,
    ;
    lemma_reduce_value(p, d);
    let s = qadd(lo, hi);
    assert(s.1 * 2 > 0);
    lemma_reduce_value(s.0 * 1, s.1 * 2);
    let m = qmul(s, (1, 2));
    assert(m.0 * (s.1 * 2) == (s.0 * 1) * m.1);
    assert(s.0 * d == p * s.1);
    assert(lo.0 * hi.1 < hi.0 * lo.1);
    assert(lo.0 * m.1 < m.0 * lo.1) by (nonlinear_arith)
        requires
            m.0 * (s.1 * 2) == s.0 * m.1,
            s.0 * d == p * s.1,
            p == lo.0 * hi.1 + hi.0 * lo.1,
            d == lo.1 * hi.1,
            lo.0 * hi.1 < hi.0 * lo.1,
            lo.1 > 0,
            hi.1 > 0,
            m.1 > 0,
            s.1 > 0,
    ;
    assert(m.0 * hi.1 < hi.0 * m.1) by (nonlinear_arith)
        requires
            m.0 * (s.1 * 2) == s.0 * m.1,
            s.0 * d == p * s.1,
            p == lo.0 * hi.1 + hi.0 * lo.1,
            d == lo.1 * hi.1,
            lo.0 * hi.1 < hi.0 * lo.1,
            lo.1 > 0,
            hi.1 > 0,
            m.1 > 0,
            s.1 > 0,
    ;
}


/// Bézout coefficients for Euclid's gcd: `s·x + t·y == gcd(x, y)`.
pub proof fn lemma_bezout(x: nat, y: nat) -> (st: (int, int))
    ensures
        st.0 * x + st.1 * y == gcd(x, y),
    decreases y,
{
    if y == 0 {
        (1, 0)
    } else {
        let r = x % y;
        let q = x / y;
        let st = lemma_bezout(y, r);
        vstd::arithmetic::div_mod::lemma_fundamental_div_mod(x as int, y as int);
        assert(x == y * q + r);
        assert(st.1 * x + (st.0 - st.1 * q) * y == st.0 * y + st.1 * r) by (nonlinear_arith)
            requires
                x == y * q + r,
        ;
        (st.1, st.0 - st.1 * q)
    }
}

/// Two fractions in lowest terms with equal cross products are the same
/// pair.
pub proof fn lemma_canonical_unique(a: Q, b: Q)
    requires
        canonical(a),
        canonical(b),
        a.0 * b.1 == b.0 * a.1,
    ensures
        a == b,
{
    let aa: int = abs(a.0) as int;
    let ab: int = abs(b.0) as int;
    assert(aa * b.1 == ab * a.1) by (nonlinear_arith)
        requires
            a.0 * b.1 == b.0 * a.1,
            a.1 > 0,
            b.1 > 0,
            aa == (if a.0 < 0 { -a.0 } else { a.0 }),
            ab == (if b.0 < 0 { -b.0 } else { b.0 }),
    ;
    let st = lemma_bezout(abs(a.0), a.1 as nat);
    let uv = lemma_bezout(abs(b.0), b.1 as nat);
    assert(st.0 * aa + st.1 * a.1 == 1);
    assert(uv.0 * ab + uv.1 * b.1 == 1);
    assert(b.1 == a.1 * (st.0 * ab + st.1 * b.1)) by (nonlinear_arith)
        requires
            st.0 * aa + st.1 * a.1 == 1,
            aa * b.1 == ab * a.1,
    ;
    assert(a.1 == b.1 * (uv.0 * aa + uv.1 * a.1)) by (nonlinear_arith)
        requires
            uv.0 * ab + uv.1 * b.1 == 1,
            aa * b.1 == ab * a.1,
    ;
    assert(a.1 == b.1) by (nonlinear_arith)
        requires
            b.1 == a.1 * (st.0 * ab + st.1 * b.1),
            a.1 == b.1 * (uv.0 * aa + uv.1 * a.1),
            a.1 > 0,
            b.1 > 0,
    ;
    assert(a.0 == b.0) by (nonlinear_arith)
        requires
            a.0 * b.1 == b.0 * a.1,
            a.1 == b.1,
            a.1 > 0,
    ;
}

/// In lowest terms, `a <= b` and `a != b` give `a < b`.
pub proof fn lemma_qle_ne(a: Q, b: Q)
    requires
        canonical(a),
        canonical(b),
        qle(a, b),
        a != b,
    ensures
        qlt(a, b),
{
    if a.0 * b.1 == b.0 * a.1 {
        lemma_canonical_unique(a, b);
    }
}


/// `a` and `b` have the same value: equal cross products.
pub open spec fn qeq(a: Q, b: Q) -> bool {
    a.0 * b.1 == b.0 * a.1
}

/// Reducing keeps the value.
pub proof fn lemma_reduce_qeq(n: int, d: int)
    requires
        d > 0,
    ensures
        reduce(n, d).1 > 0,
        qeq(reduce(n, d), (n, d)),
{
    lemma_reduce_value(n, d);
}

/// Same value is transitive (positive denominators).
pub proof fn lemma_qeq_trans(a: Q, b: Q, c: Q)
    requires
        a.1 > 0,
        b.1 > 0,
        c.1 > 0,
        qeq(a, b),
        qeq(b, c),
    ensures
        qeq(a, c),
{
    assert(a.0 * c.1 * b.1 == c.0 * a.1 * b.1) by (nonlinear_arith)
        requires
            a.0 * b.1 == b.0 * a.1,
            b.0 * c.1 == c.0 * b.1,
    ;
    assert(a.0 * c.1 == c.0 * a.1) by (nonlinear_arith)
        requires
            a.0 * c.1 * b.1 == c.0 * a.1 * b.1,
            b.1 > 0,
    ;
}

/// Order depends on values only (positive denominators).
pub proof fn lemma_qlt_congr(x: Q, y: Q, z: Q)
    requires
        x.1 > 0,
        y.1 > 0,
        z.1 > 0,
        qeq(x, y),
    ensures
        qlt(x, z) == qlt(y, z),
        qlt(z, x) == qlt(z, y),
        qle(x, z) == qle(y, z),
        qle(z, x) == qle(z, y),
{
    assert((x.0 * z.1 - z.0 * x.1) * y.1 == (y.0 * z.1 - z.0 * y.1) * x.1) by (nonlinear_arith)
        requires
            x.0 * y.1 == y.0 * x.1,
    ;
    assert((x.0 * z.1 - z.0 * x.1 < 0) == (y.0 * z.1 - z.0 * y.1 < 0)) by (nonlinear_arith)
        requires
            (x.0 * z.1 - z.0 * x.1) * y.1 == (y.0 * z.1 - z.0 * y.1) * x.1,
            x.1 > 0,
            y.1 > 0,
    ;
    assert((x.0 * z.1 - z.0 * x.1 > 0) == (y.0 * z.1 - z.0 * y.1 > 0)) by (nonlinear_arith)
        requires
            (x.0 * z.1 - z.0 * x.1) * y.1 == (y.0 * z.1 - z.0 * y.1) * x.1,
            x.1 > 0,
            y.1 > 0,
    ;
}

/// `gcd(n, 1) == 1`, so `n / 1` is already reduced.
pub proof fn lemma_reduce_int(n: int)
    ensures
        reduce(n, 1) == qint(n),
{
    let a = abs(n);
    assert(a % 1 == 0);
    assert(gcd(1, 0) == 1);
    assert(gcd(a, 1) == gcd(1, a % 1));
    assert(gcd(a, 1) == 1);
    assert(n / 1 == n);
    assert(1int / 1 == 1);
}

/// Reducing never grows the denominator, nor a nonnegative numerator.
pub proof fn lemma_reduce_le(n: int, d: int)
    requires
        d > 0,
    ensures
        reduce(n, d).1 <= d,
        n >= 0 ==> 0 <= reduce(n, d).0 <= n,
{
    let g = gcd(abs(n), d as nat);
    lemma_gcd_divides(abs(n), d as nat);
    assert(g >= 1);
    vstd::arithmetic::div_mod::lemma_div_is_ordered_by_denominator(d, 1, g as int);
    if n >= 0 {
        vstd::arithmetic::div_mod::lemma_div_is_ordered_by_denominator(n, 1, g as int);
        vstd::arithmetic::div_mod::lemma_div_pos_is_pos(n, g as int);
    }
}

/// The reciprocal of a positive fraction, by value.
pub proof fn lemma_qdiv_one(x: Q)
    requires
        x.1 > 0,
        x.0 > 0,
    ensures
        qdiv(qint(1), x) == reduce(x.1, x.0),
        qeq(qdiv(qint(1), x), (x.1, x.0)),
        qdiv(qint(1), x).1 > 0,
        qdiv(qint(1), x).0 > 0,
        qdiv(qint(1), x).1 <= x.0,
{
    assert(1 * x.1 == x.1 && 1 * x.0 == x.0);
    lemma_reduce_qeq(x.1, x.0);
    lemma_reduce_sign(x.1, x.0);
    lemma_reduce_le(x.1, x.0);
}

/// `RBig::floor`: the greatest integer not above the value.
#[verifier::external_body]
fn rbig_floor(a: &Rational) -> (r: Rational)
    ensures
        r@ == qint(a@.0 / a@.1),
{
    from_rbig(RBig::from(to_rbig(a).floor()))
}

impl Rational {
    /// `⌊self⌋`, as a rational.
    pub fn floor(&self) -> (r: Rational)
        ensures
            r@ == qint(self@.0 / self@.1),
    {
        rbig_floor(self)
    }
}


/// `1 / 2` in lowest terms.
pub proof fn lemma_half()
    ensures
        qdiv(qint(1), qint(2)) == (1int, 2int),
{
    assert(1nat % 2 == 1);
    assert(2nat % 1 == 0);
    assert(gcd(1, 0) == 1);
    assert(gcd(2, 1) == gcd(1, 0));
    assert(gcd(1, 2) == gcd(2, 1));
    assert(abs(1) == 1);
    assert(gcd(abs(1), 2int as nat) == 1);
    assert(1int / 1int == 1);
    assert(2int / 1int == 2);
    assert(reduce(1, 2) == (1int, 2int));
    assert(1 * 1 == 1 && 1 * 2 == 2);
}


/// `IBig % IBig` for a nonnegative integer by a positive one: the remainder.
#[verifier::external_body]
fn ibig_rem(a: &Rational, b: &Rational) -> (r: Rational)
    requires
        a@.1 == 1,
        b@.1 == 1,
        a@.0 >= 0,
        b@.0 > 0,
    ensures
        r@ == qint(a@.0 % b@.0),
{
    from_rbig(RBig::from(to_rbig(a).numerator() % to_rbig(b).numerator()))
}

/// `IBig / IBig` for a nonnegative integer by a positive one: the quotient.
#[verifier::external_body]
fn ibig_div(a: &Rational, b: &Rational) -> (r: Rational)
    requires
        a@.1 == 1,
        b@.1 == 1,
        a@.0 >= 0,
        b@.0 > 0,
    ensures
        r@ == qint(a@.0 / b@.0),
{
    from_rbig(RBig::from(to_rbig(a).numerator() / to_rbig(b).numerator()))
}

impl Rational {
    /// The numerator, as an integer.
    pub(crate) fn numerator(&self) -> (r: Rational)
        ensures
            r@ == qint(self@.0),
    {
        let mut one: Vec<u8> = Vec::new();
        one.push(1u8);
        proof {
            assert(one@ =~= seq![1u8]);
            assert(le_value(seq![1u8].drop_first()) == 0);
            assert(le_value(one@) == 1);
            lemma_reduce_int(self@.0);
        }
        rbig_from_parts(self.neg, &self.num, &one)
    }

    /// The denominator, as an integer.
    pub(crate) fn denominator(&self) -> (r: Rational)
        ensures
            r@ == qint(self@.1),
    {
        let mut one: Vec<u8> = Vec::new();
        one.push(1u8);
        proof {
            assert(one@ =~= seq![1u8]);
            assert(le_value(seq![1u8].drop_first()) == 0);
            assert(le_value(one@) == 1);
            lemma_reduce_int(self@.1);
        }
        rbig_from_parts(false, &self.den, &one)
    }

    /// Integer remainder of a nonnegative integer by a positive one.
    pub(crate) fn int_rem(&self, m: &Rational) -> (r: Rational)
        requires
            self@.1 == 1,
            m@.1 == 1,
            self@.0 >= 0,
            m@.0 > 0,
        ensures
            r@ == qint(self@.0 % m@.0),
    {
        ibig_rem(self, m)
    }

    /// Integer quotient of a nonnegative integer by a positive one.
    pub(crate) fn int_div(&self, m: &Rational) -> (r: Rational)
        requires
            self@.1 == 1,
            m@.1 == 1,
            self@.0 >= 0,
            m@.0 > 0,
        ensures
            r@ == qint(self@.0 / m@.0),
    {
        ibig_div(self, m)
    }
}


/// `<=` is transitive (positive denominators).
pub proof fn lemma_qle_trans(a: Q, b: Q, c: Q)
    requires
        a.1 > 0,
        b.1 > 0,
        c.1 > 0,
        qle(a, b),
        qle(b, c),
    ensures
        qle(a, c),
{
    assert(a.0 * c.1 * b.1 <= c.0 * a.1 * b.1) by (nonlinear_arith)
        requires
            a.0 * b.1 <= b.0 * a.1,
            b.0 * c.1 <= c.0 * b.1,
            a.1 > 0,
            b.1 > 0,
            c.1 > 0,
    ;
    assert(a.0 * c.1 <= c.0 * a.1) by (nonlinear_arith)
        requires
            a.0 * c.1 * b.1 <= c.0 * a.1 * b.1,
            b.1 > 0,
    ;
}

/// `<` below `<=` is `<` (positive denominators).
pub proof fn lemma_qlt_le_trans(a: Q, b: Q, c: Q)
    requires
        a.1 > 0,
        b.1 > 0,
        c.1 > 0,
        qlt(a, b),
        qle(b, c),
    ensures
        qlt(a, c),
{
    assert(a.0 * c.1 * b.1 < c.0 * a.1 * b.1) by (nonlinear_arith)
        requires
            a.0 * b.1 < b.0 * a.1,
            b.0 * c.1 <= c.0 * b.1,
            a.1 > 0,
            b.1 > 0,
            c.1 > 0,
    ;
    assert(a.0 * c.1 < c.0 * a.1) by (nonlinear_arith)
        requires
            a.0 * c.1 * b.1 < c.0 * a.1 * b.1,
            b.1 > 0,
    ;
}


/// The character of a decimal digit `d < 10`.
pub open spec fn digit_char(d: nat) -> char {
    (('0' as nat) + d) as char
}

/// The decimal spelling of a natural number, most significant digit first,
/// without leading zeros (`0` is `"0"`).
pub open spec fn nat_spelling(n: nat) -> Seq<char>
    decreases n,
{
    if n < 10 {
        seq![digit_char(n)]
    } else {
        nat_spelling(n / 10).push(digit_char(n % 10))
    }
}

/// The canonical decimal spelling of an integer: a minus sign for negative
/// values, then the digits of the magnitude.
pub open spec fn int_spelling(i: int) -> Seq<char> {
    if i < 0 {
        seq!['-'] + nat_spelling((-i) as nat)
    } else {
        nat_spelling(i as nat)
    }
}

/// The unsigned part of an optionally signed numeral (one leading `-` or
/// `+` dropped).
pub open spec fn unsigned_part(s: Seq<char>) -> Seq<char> {
    if s.len() > 0 && (s[0] == '-' || s[0] == '+') {
        s.drop_first()
    } else {
        s
    }
}

/// The characters of `s` other than underscores.
pub open spec fn without_underscores(s: Seq<char>) -> Seq<char>
    decreases s.len(),
{
    if s.len() == 0 {
        s
    } else if s.last() == '_' {
        without_underscores(s.drop_last())
    } else {
        without_underscores(s.drop_last()).push(s.last())
    }
}

/// The value of a run of decimal digits, most significant first.
pub open spec fn decimal_digits_value(s: Seq<char>) -> nat
    decreases s.len(),
{
    if s.len() == 0 {
        0
    } else {
        decimal_digits_value(s.drop_last()) * 10 + (s.last() as nat - '0' as nat) as nat
    }
}

/// What `IBig`'s decimal parser accepts: an optional sign, then a nonempty
/// run of digits and underscores.
pub open spec fn decimal_integer_syntax(s: Seq<char>) -> bool {
    let body = unsigned_part(s);
    body.len() > 0 && forall|i: int| 0 <= i < body.len() ==> ('0' <= #[trigger] body[i] <= '9' || body[i] == '_')
}

/// The integer such a numeral denotes: underscores are ignored, and a
/// leading `-` negates.
pub open spec fn decimal_integer_value(s: Seq<char>) -> int {
    let magnitude = decimal_digits_value(without_underscores(unsigned_part(s))) as int;
    if s.len() > 0 && s[0] == '-' {
        -magnitude
    } else {
        magnitude
    }
}

/// `IBig::from_str` (decimal): the integer a numeral denotes, as a
/// rational, when the numeral is an optionally signed run of digits and
/// underscores.
#[verifier::external_body]
pub(crate) fn parse_decimal_integer(text: &str) -> (r: Option<Rational>)
    ensures
        r is Some <==> decimal_integer_syntax(text@),
        r matches Some(v) ==> v@ == qint(decimal_integer_value(text@)),
{
    match text.parse::<IBig>() {
        Ok(i) => Some(from_rbig(RBig::from(i))),
        Err(_) => None,
    }
}

/// `IBig`'s `Display`: the canonical decimal spelling of an integer.
#[verifier::external_body]
pub(crate) fn integer_spelling(v: &Rational) -> (r: String)
    requires
        v@.1 == 1,
    ensures
        r@ == int_spelling(v@.0),
{
    to_rbig(v).numerator().to_string()
}

} // verus!
