//! Tri-state certified logic: a value is either certified or undetermined at
//! the current precision, and exact signs compose by multiplication.
use vstd::prelude::*;
use core::cmp::Ordering;

verus! {

/// Sign of an exact quantity.
#[derive(Copy, Clone, Debug, PartialEq, Eq, Hash, Structural)]
pub enum Sign {
    /// Strictly negative.
    Negative,
    /// Exactly zero.
    Zero,
    /// Strictly positive.
    Positive,
}

/// The sign of a mathematical integer.
pub open spec fn sign_of_int(x: int) -> Sign {
    if x < 0 {
        Sign::Negative
    } else if x == 0 {
        Sign::Zero
    } else {
        Sign::Positive
    }
}

/// The integer `-1`, `0` or `1` that a sign stands for.
pub open spec fn sign_value(s: Sign) -> int {
    match s {
        Sign::Negative => -1,
        Sign::Zero => 0,
        Sign::Positive => 1,
    }
}

impl Sign {
    /// Negation.
    pub fn negated(self) -> (r: Sign)
        ensures
            sign_value(r) == -sign_value(self),
    {
        match self {
            Sign::Negative => Sign::Positive,
            Sign::Zero => Sign::Zero,
            Sign::Positive => Sign::Negative,
        }
    }

    /// Sign of a product.
    pub fn times(self, rhs: Sign) -> (r: Sign)
        ensures
            sign_value(r) == sign_value(self) * sign_value(rhs),
    {
        match (self, rhs) {
            (Sign::Zero, _) | (_, Sign::Zero) => Sign::Zero,
            (a, b) => if a == b {
                Sign::Positive
            } else {
                Sign::Negative
            },
        }
    }

    /// The corresponding `Ordering` against zero.
    pub fn as_ordering(self) -> (r: Ordering)
        ensures
            (r == Ordering::Less) == (self == Sign::Negative),
            (r == Ordering::Equal) == (self == Sign::Zero),
            (r == Ordering::Greater) == (self == Sign::Positive),
    {
        match self {
            Sign::Negative => Ordering::Less,
            Sign::Zero => Ordering::Equal,
            Sign::Positive => Ordering::Greater,
        }
    }
}

/// The sign of a product of integers is the product of their signs.
pub proof fn lemma_sign_of_product(a: int, b: int)
    ensures
        sign_value(sign_of_int(a * b)) == sign_value(sign_of_int(a)) * sign_value(sign_of_int(b)),
{
    if a > 0 && b > 0 {
        assert(a * b > 0) by (nonlinear_arith)
            requires
                a > 0,
                b > 0,
        ;
    } else if a > 0 && b < 0 {
        assert(a * b < 0) by (nonlinear_arith)
            requires
                a > 0,
                b < 0,
        ;
    } else if a < 0 && b > 0 {
        assert(a * b < 0) by (nonlinear_arith)
            requires
                a < 0,
                b > 0,
        ;
    } else if a < 0 && b < 0 {
        assert(a * b > 0) by (nonlinear_arith)
            requires
                a < 0,
                b < 0,
        ;
    } else {
        assert(a * b == 0) by (nonlinear_arith)
            requires
                a == 0 || b == 0,
        ;
    }
}

/// Negating a sign twice gives it back, and the sign of a product does not
/// depend on the order of the factors.
pub proof fn lemma_sign_algebra(a: Sign, b: Sign)
    ensures
        sign_value(a) * sign_value(b) == sign_value(b) * sign_value(a),
        -(-sign_value(a)) == sign_value(a),
{
}

/// A value that is either certainly known or undetermined at the current
/// precision.
#[derive(Copy, Clone, Debug, PartialEq, Eq)]
pub enum Uncertain<T> {
    /// The value is certified.
    Certain(T),
    /// The filter could not decide; escalate to a more precise rung.
    Unknown,
}

impl<T> Uncertain<T> {
    /// `true` iff certified.
    pub fn is_certain(&self) -> (r: bool)
        ensures
            r == (*self is Certain),
    {
        match self {
            Uncertain::Certain(_) => true,
            Uncertain::Unknown => false,
        }
    }

    /// Map the certified value.
    pub fn map<U, F: FnOnce(T) -> U>(self, f: F) -> (r: Uncertain<U>)
        requires
            self is Certain ==> f.requires((self->0,)),
        ensures
            self is Unknown ==> r is Unknown,
            self is Certain ==> (r is Certain && f.ensures((self->0,), r->0)),
    {
        match self {
            Uncertain::Certain(t) => Uncertain::Certain(f(t)),
            Uncertain::Unknown => Uncertain::Unknown,
        }
    }

    /// Monadic bind.
    pub fn and_then<U, F: FnOnce(T) -> Uncertain<U>>(self, f: F) -> (r: Uncertain<U>)
        requires
            self is Certain ==> f.requires((self->0,)),
        ensures
            self is Unknown ==> r is Unknown,
            self is Certain ==> f.ensures((self->0,), r),
    {
        match self {
            Uncertain::Certain(t) => f(t),
            Uncertain::Unknown => Uncertain::Unknown,
        }
    }

    /// The certified value, or compute it with the (exact) fallback.
    pub fn certain_or<F: FnOnce() -> T>(self, exact: F) -> (r: T)
        requires
            self is Unknown ==> exact.requires(()),
        ensures
            self is Certain ==> r == self->0,
            self is Unknown ==> exact.ensures((), r),
    {
        match self {
            Uncertain::Certain(t) => t,
            Uncertain::Unknown => exact(),
        }
    }

    /// The certified value, if any.
    pub fn certain(self) -> (r: Option<T>)
        ensures
            self is Certain <==> r is Some,
            self is Certain ==> r == Some(self->0),
    {
        match self {
            Uncertain::Certain(t) => Some(t),
            Uncertain::Unknown => None,
        }
    }

    /// A certified value.
    pub fn from_certain(t: T) -> (r: Uncertain<T>)
        ensures
            r == Uncertain::Certain(t),
    {
        Uncertain::Certain(t)
    }
}

} // verus!
