//! SI base-dimension exponent vectors and a small parser for unit
//! expressions such as `W / (m K)` or `kg / m^3`.
use vstd::prelude::*;

verus! {

/// SI base-dimension exponent vector in the order M, L, T, I, Θ, N, J.
///
/// Dimensions are semantic compiler data: addition requires equality while
/// multiplication and division compose exponents.
#[derive(Clone, Copy, Debug, PartialEq, Eq, Hash)]
pub struct Dimension(pub [i8; 7]);

/// Errors from parsing a unit expression.
#[derive(Clone, Debug)]
pub enum UnitError {
    /// An unknown unit name.
    Unknown(String),
    /// An exponent that is not an `i8`, or a result exponent out of range.
    BadExponent(String),
    /// Unexpected text.
    Syntax(String),
}

/// Exponent-wise sum of two exponent vectors.
pub open spec fn exponent_sum(a: Seq<i8>, b: Seq<i8>) -> Seq<int> {
    Seq::new(7, |i: int| a[i] + b[i])
}

/// Exponent-wise difference of two exponent vectors.
pub open spec fn exponent_difference(a: Seq<i8>, b: Seq<i8>) -> Seq<int> {
    Seq::new(7, |i: int| a[i] - b[i])
}

/// Exponent-wise scaling of an exponent vector.
pub open spec fn exponent_scale(a: Seq<i8>, n: int) -> Seq<int> {
    Seq::new(7, |i: int| a[i] * n)
}

/// Every exponent fits in an `i8`.
pub open spec fn fits_i8(s: Seq<int>) -> bool {
    forall|i: int| 0 <= i < 7 ==> i8::MIN <= #[trigger] s[i] <= i8::MAX
}

/// The exponents of `d`, as integers.
pub open spec fn exponents(d: Dimension) -> Seq<int> {
    Seq::new(7, |i: int| d.0@[i] as int)
}

impl Dimension {
    /// No dimension.
    pub fn dimensionless() -> (r: Self)
        ensures
            r == Dimension([0, 0, 0, 0, 0, 0, 0]),
    {
        Dimension([0, 0, 0, 0, 0, 0, 0])
    }

    /// Mass.
    pub fn mass() -> (r: Self)
        ensures
            r == Dimension([1, 0, 0, 0, 0, 0, 0]),
    {
        Dimension([1, 0, 0, 0, 0, 0, 0])
    }

    /// Length.
    pub fn length() -> (r: Self)
        ensures
            r == Dimension([0, 1, 0, 0, 0, 0, 0]),
    {
        Dimension([0, 1, 0, 0, 0, 0, 0])
    }

    /// Time.
    pub fn time() -> (r: Self)
        ensures
            r == Dimension([0, 0, 1, 0, 0, 0, 0]),
    {
        Dimension([0, 0, 1, 0, 0, 0, 0])
    }

    /// Electric current.
    pub fn current() -> (r: Self)
        ensures
            r == Dimension([0, 0, 0, 1, 0, 0, 0]),
    {
        Dimension([0, 0, 0, 1, 0, 0, 0])
    }

    /// Thermodynamic temperature.
    pub fn temperature() -> (r: Self)
        ensures
            r == Dimension([0, 0, 0, 0, 1, 0, 0]),
    {
        Dimension([0, 0, 0, 0, 1, 0, 0])
    }

    /// Amount of substance.
    pub fn amount() -> (r: Self)
        ensures
            r == Dimension([0, 0, 0, 0, 0, 1, 0]),
    {
        Dimension([0, 0, 0, 0, 0, 1, 0])
    }

    /// Luminous intensity.
    pub fn luminous_intensity() -> (r: Self)
        ensures
            r == Dimension([0, 0, 0, 0, 0, 0, 1]),
    {
        Dimension([0, 0, 0, 0, 0, 0, 1])
    }

    /// The dimension raised to the integer power `n`.
    pub fn powi(self, n: i8) -> (r: Self)
        requires
            fits_i8(exponent_scale(self.0@, n as int)),
        ensures
            exponents(r) == exponent_scale(self.0@, n as int),
    {
        let a = self.0;
        proof {
            assert(i8::MIN <= exponent_scale(a@, n as int)[0] <= i8::MAX);
            assert(i8::MIN <= exponent_scale(a@, n as int)[1] <= i8::MAX);
            assert(i8::MIN <= exponent_scale(a@, n as int)[2] <= i8::MAX);
            assert(i8::MIN <= exponent_scale(a@, n as int)[3] <= i8::MAX);
            assert(i8::MIN <= exponent_scale(a@, n as int)[4] <= i8::MAX);
            assert(i8::MIN <= exponent_scale(a@, n as int)[5] <= i8::MAX);
            assert(i8::MIN <= exponent_scale(a@, n as int)[6] <= i8::MAX);
        }
        let r = Self([a[0] * n, a[1] * n, a[2] * n, a[3] * n, a[4] * n, a[5] * n, a[6] * n]);
        assert(exponents(r) =~= exponent_scale(self.0@, n as int));
        r
    }

    /// The product of two dimensions (exponents add).
    pub fn mul(self, rhs: Self) -> (r: Self)
        requires
            fits_i8(exponent_sum(self.0@, rhs.0@)),
        ensures
            exponents(r) == exponent_sum(self.0@, rhs.0@),
    {
        let mut out: [i8; 7] = [0, 0, 0, 0, 0, 0, 0];
        let mut i: usize = 0;
        while i < 7
            invariant
                i <= 7,
                fits_i8(exponent_sum(self.0@, rhs.0@)),
                forall|j: int| 0 <= j < i ==> out@[j] == self.0@[j] + rhs.0@[j],
            decreases 7 - i,
        {
            assert(i8::MIN <= exponent_sum(self.0@, rhs.0@)[i as int] <= i8::MAX);
            out[i] = self.0[i] + rhs.0[i];
            i = i + 1;
        }
        let r = Self(out);
        assert(exponents(r) =~= exponent_sum(self.0@, rhs.0@));
        r
    }

    /// The quotient of two dimensions (exponents subtract).
    pub fn div(self, rhs: Self) -> (r: Self)
        requires
            fits_i8(exponent_difference(self.0@, rhs.0@)),
        ensures
            exponents(r) == exponent_difference(self.0@, rhs.0@),
    {
        let mut out: [i8; 7] = [0, 0, 0, 0, 0, 0, 0];
        let mut i: usize = 0;
        while i < 7
            invariant
                i <= 7,
                fits_i8(exponent_difference(self.0@, rhs.0@)),
                forall|j: int| 0 <= j < i ==> out@[j] == self.0@[j] - rhs.0@[j],
            decreases 7 - i,
        {
            assert(i8::MIN <= exponent_difference(self.0@, rhs.0@)[i as int] <= i8::MAX);
            out[i] = self.0[i] - rhs.0[i];
            i = i + 1;
        }
        let r = Self(out);
        assert(exponents(r) =~= exponent_difference(self.0@, rhs.0@));
        r
    }
}


/// Whether `c` has the Unicode `Alphabetic` property.
pub uninterp spec fn unicode_alphabetic(c: char) -> bool;

/// Whether `c` has the Unicode `White_Space` property: the code points
/// U+0009 to U+000D, U+0020, U+0085, U+00A0, U+1680, U+2000 to U+200A,
/// U+2028, U+2029, U+202F, U+205F and U+3000.
pub open spec fn unicode_whitespace(c: char) -> bool {
    ||| '\u{9}' <= c <= '\u{d}'
    ||| c == ' '
    ||| c == '\u{85}'
    ||| c == '\u{a0}'
    ||| c == '\u{1680}'
    ||| '\u{2000}' <= c <= '\u{200a}'
    ||| c == '\u{2028}'
    ||| c == '\u{2029}'
    ||| c == '\u{202f}'
    ||| c == '\u{205f}'
    ||| c == '\u{3000}'
}

/// `char::is_alphabetic`: whether `c` has the Unicode `Alphabetic` property,
/// a table lookup that this library names rather than restates.
#[verifier::external_body]
fn is_alphabetic(c: char) -> (r: bool)
    ensures
        r == unicode_alphabetic(c),
{
    c.is_alphabetic()
}

/// Whether `c` has the Unicode `White_Space` property (what
/// `char::is_whitespace` answers).
pub(crate) fn is_whitespace(c: char) -> (r: bool)
    ensures
        r == unicode_whitespace(c),
{
    ('\u{9}' <= c && c <= '\u{d}') || c == ' ' || c == '\u{85}' || c == '\u{a0}' || c == '\u{1680}' || ('\u{2000}' <= c
        && c <= '\u{200a}') || c == '\u{2028}' || c == '\u{2029}' || c == '\u{202f}' || c == '\u{205f}' || c == '\u{3000}'
}

/// `str::chars`, collected: the characters of `s` in order.
#[verifier::external_body]
pub(crate) fn chars_of(s: &str) -> (r: Vec<char>)
    ensures
        r@ == s@,
{
    s.chars().collect()
}

/// A `String` holding exactly the characters `cs` (`FromIterator<char>`).
#[verifier::external_body]
pub(crate) fn string_of(cs: &[char]) -> (r: String)
    ensures
        r@ == cs@,
{
    cs.iter().collect()
}

/// An ASCII decimal digit.
pub open spec fn is_digit(c: char) -> bool {
    '0' <= c <= '9'
}

/// The value of a nonempty run of decimal digits.
pub open spec fn digits_value(s: Seq<char>) -> int
    decreases s.len(),
{
    if s.len() == 0 {
        0
    } else {
        digits_value(s.drop_last()) * 10 + (s.last() as int - '0' as int)
    }
}

/// `text` starts with an explicit sign.
pub open spec fn numeral_signed(text: Seq<char>) -> bool {
    text.len() > 0 && (text[0] == '+' || text[0] == '-')
}

/// The digits of a numeral, after its optional sign.
pub open spec fn numeral_digits(text: Seq<char>) -> Seq<char> {
    if numeral_signed(text) {
        text.drop_first()
    } else {
        text
    }
}

/// The integer that `text` denotes as an optionally signed decimal numeral,
/// when it is one.
pub open spec fn numeral_value(text: Seq<char>) -> Option<int> {
    let digits = numeral_digits(text);
    let neg = numeral_signed(text) && text[0] == '-';
    if digits.len() > 0 && forall|i: int| 0 <= i < digits.len() ==> is_digit(#[trigger] digits[i]) {
        Some(if neg { -digits_value(digits) } else { digits_value(digits) })
    } else {
        None
    }
}

proof fn lemma_digits_value_nonneg(s: Seq<char>)
    requires
        forall|i: int| 0 <= i < s.len() ==> is_digit(#[trigger] s[i]),
    ensures
        digits_value(s) >= 0,
    decreases s.len(),
{
    if s.len() > 0 {
        lemma_digits_value_nonneg(s.drop_last());
    }
}

proof fn lemma_digits_value_monotone(s: Seq<char>)
    requires
        s.len() > 0,
        forall|i: int| 0 <= i < s.len() ==> is_digit(#[trigger] s[i]),
    ensures
        digits_value(s) >= digits_value(s.drop_last()),
{
    lemma_digits_value_nonneg(s.drop_last());
}

/// `str::parse::<i8>` on a run of characters: an optionally signed decimal
/// numeral whose value fits in an `i8`.
pub fn parse_i8(text: &[char]) -> (r: Option<i8>)
    ensures
        r is Some <==> (numeral_value(text@) is Some && i8::MIN <= numeral_value(text@)->0 <= i8::MAX),
        r is Some ==> r->0 == numeral_value(text@)->0,
{
    let mut start: usize = 0;
    let mut neg = false;
    if text.len() > 0 && (text[0] == '+' || text[0] == '-') {
        neg = text[0] == '-';
        start = 1;
    }
    let ghost digits = text@.subrange(start as int, text@.len() as int);
    proof {
        if start == 1 {
            assert(digits =~= text@.drop_first());
        } else {
            assert(digits =~= text@);
        }
    }
    if start >= text.len() {
        assert(digits.len() == 0);
        return None;
    }
    let mut i = start;
    while i < text.len()
        invariant
            start <= i <= text@.len(),
            digits == text@.subrange(start as int, text@.len() as int),
            forall|j: int| start <= j < i ==> is_digit(#[trigger] text@[j]),
            start <= 1,
            start == 1 ==> digits == text@.drop_first(),
            start == 0 ==> digits == text@,
            (start == 1) == (text@.len() > 0 && (text@[0] == '+' || text@[0] == '-')),
        decreases text@.len() - i,
    {
        if !('0' <= text[i] && text[i] <= '9') {
            proof {
                assert(digits[i - start] == text@[i as int]);
                assert(!is_digit(digits[i - start]));
                assert(digits == numeral_digits(text@));
                assert(!(forall|k: int| 0 <= k < digits.len() ==> is_digit(#[trigger] digits[k])));
            }
            return None;
        }
        i = i + 1;
    }
    proof {
        assert forall|k: int| 0 <= k < digits.len() implies is_digit(#[trigger] digits[k]) by {
            assert(digits[k] == text@[start + k]);
        }
    }
    let mut value: i32 = 0;
    i = start;
    while i < text.len()
        invariant
            start <= i <= text@.len(),
            start < text@.len(),
            digits == text@.subrange(start as int, text@.len() as int),
            forall|j: int| start <= j < text@.len() ==> is_digit(#[trigger] text@[j]),
            0 <= value <= 1000,
            value < 1000 ==> value == digits_value(text@.subrange(start as int, i as int)),
            value == 1000 ==> digits_value(text@.subrange(start as int, i as int)) >= 1000,
        decreases text@.len() - i,
    {
        let ghost pre = text@.subrange(start as int, i as int);
        let ghost post = text@.subrange(start as int, i + 1);
        proof {
            assert(post.drop_last() =~= pre);
            assert(post.last() == text@[i as int]);
            assert forall|k: int| 0 <= k < post.len() implies is_digit(#[trigger] post[k]) by {
                assert(post[k] == text@[start + k]);
            }
            lemma_digits_value_monotone(post);
        }
        let d = (text[i] as u32 - '0' as u32) as i32;
        if value < 1000 {
            let next = value * 10 + d;
            value = if next > 1000 { 1000 } else { next };
        }
        i = i + 1;
    }
    proof {
        assert(text@.subrange(start as int, i as int) == digits);
    }
    if neg {
        if value > 128 {
            return None;
        }
        Some((0 - value) as i8)
    } else {
        if value > 127 {
            return None;
        }
        Some(value as i8)
    }
}

/// `str::parse::<i64>` on a run of characters: an optionally signed
/// decimal numeral whose value fits in an `i64`.
pub(crate) fn parse_i64(text: &[char]) -> (r: Option<i64>)
    ensures
        r is Some <==> (numeral_value(text@) is Some && i64::MIN <= numeral_value(text@)->0 <= i64::MAX),
        r is Some ==> r->0 == numeral_value(text@)->0,
{
    let mut start: usize = 0;
    let mut neg = false;
    if text.len() > 0 && (text[0] == '+' || text[0] == '-') {
        neg = text[0] == '-';
        start = 1;
    }
    let ghost digits = text@.subrange(start as int, text@.len() as int);
    proof {
        if start == 1 {
            assert(digits =~= text@.drop_first());
        } else {
            assert(digits =~= text@);
        }
    }
    if start >= text.len() {
        assert(digits.len() == 0);
        return None;
    }
    let mut i = start;
    while i < text.len()
        invariant
            start <= i <= text@.len(),
            digits == text@.subrange(start as int, text@.len() as int),
            forall|j: int| start <= j < i ==> is_digit(#[trigger] text@[j]),
            start <= 1,
            start == 1 ==> digits == text@.drop_first(),
            start == 0 ==> digits == text@,
            (start == 1) == (text@.len() > 0 && (text@[0] == '+' || text@[0] == '-')),
        decreases text@.len() - i,
    {
        if !('0' <= text[i] && text[i] <= '9') {
            proof {
                assert(digits[i - start] == text@[i as int]);
                assert(!is_digit(digits[i - start]));
                assert(digits == numeral_digits(text@));
                assert(!(forall|k: int| 0 <= k < digits.len() ==> is_digit(#[trigger] digits[k])));
            }
            return None;
        }
        i = i + 1;
    }
    proof {
        assert forall|k: int| 0 <= k < digits.len() implies is_digit(#[trigger] digits[k]) by {
            assert(digits[k] == text@[start + k]);
        }
    }
    let mut value: i128 = 0;
    i = start;
    while i < text.len()
        invariant
            start <= i <= text@.len(),
            start < text@.len(),
            digits == text@.subrange(start as int, text@.len() as int),
            forall|j: int| start <= j < text@.len() ==> is_digit(#[trigger] text@[j]),
            0 <= value <= 10000000000000000000,
            value < 10000000000000000000 ==> value == digits_value(text@.subrange(start as int, i as int)),
            value == 10000000000000000000 ==> digits_value(text@.subrange(start as int, i as int)) >= 10000000000000000000,
        decreases text@.len() - i,
    {
        let ghost pre = text@.subrange(start as int, i as int);
        let ghost post = text@.subrange(start as int, i + 1);
        proof {
            assert(post.drop_last() =~= pre);
            assert(post.last() == text@[i as int]);
            assert forall|k: int| 0 <= k < post.len() implies is_digit(#[trigger] post[k]) by {
                assert(post[k] == text@[start + k]);
            }
            lemma_digits_value_monotone(post);
        }
        let d = (text[i] as u32 - '0' as u32) as i128;
        if value < 10000000000000000000 {
            let next = value * 10 + d;
            value = if next > 10000000000000000000 { 10000000000000000000 } else { next };
        }
        i = i + 1;
    }
    proof {
        assert(text@.subrange(start as int, i as int) == digits);
    }
    if neg {
        if value > 9223372036854775808 {
            return None;
        }
        Some((0 - value) as i64)
    } else {
        if value > 9223372036854775807 {
            return None;
        }
        Some(value as i64)
    }
}

proof fn lemma_digits_grow(s: Seq<char>, lo: int, mid: int, hi: int)
    requires
        0 <= lo < mid <= hi <= s.len(),
        forall|t: int| lo <= t < hi ==> is_digit(#[trigger] s[t]),
        digits_value(s.subrange(lo, mid)) > 128,
    ensures
        digits_value(s.subrange(lo, hi)) > 128,
    decreases hi - mid,
{
    if hi > mid {
        lemma_digits_grow(s, lo, mid, hi - 1);
        assert(s.subrange(lo, hi).drop_last() =~= s.subrange(lo, hi - 1));
        assert forall|t: int| 0 <= t < s.subrange(lo, hi).len() implies is_digit(#[trigger] s.subrange(lo, hi)[t]) by {
            assert(s.subrange(lo, hi)[t] == s[lo + t]);
        }
        lemma_digits_value_monotone(s.subrange(lo, hi));
    }
}


impl Dimension {
    /// The product, or `None` when an exponent leaves the `i8` range.
    pub fn checked_mul(self, rhs: Self) -> (r: Option<Self>)
        ensures
            r is Some <==> fits_i8(exponent_sum(self.0@, rhs.0@)),
            r is Some ==> exponents(r->0) == exponent_sum(self.0@, rhs.0@),
    {
        let mut i: usize = 0;
        while i < 7
            invariant
                i <= 7,
                forall|j: int| 0 <= j < i ==> i8::MIN <= #[trigger] exponent_sum(self.0@, rhs.0@)[j] <= i8::MAX,
            decreases 7 - i,
        {
            let s = self.0[i] as i16 + rhs.0[i] as i16;
            assert(s == exponent_sum(self.0@, rhs.0@)[i as int]);
            if s < -128 || s > 127 {
                return None;
            }
            i = i + 1;
        }
        Some(self.mul(rhs))
    }

    /// The quotient, or `None` when an exponent leaves the `i8` range.
    pub fn checked_div(self, rhs: Self) -> (r: Option<Self>)
        ensures
            r is Some <==> fits_i8(exponent_difference(self.0@, rhs.0@)),
            r is Some ==> exponents(r->0) == exponent_difference(self.0@, rhs.0@),
    {
        let mut i: usize = 0;
        while i < 7
            invariant
                i <= 7,
                forall|j: int| 0 <= j < i ==> i8::MIN <= #[trigger] exponent_difference(self.0@, rhs.0@)[j] <= i8::MAX,
            decreases 7 - i,
        {
            let s = self.0[i] as i16 - rhs.0[i] as i16;
            assert(s == exponent_difference(self.0@, rhs.0@)[i as int]);
            if s < -128 || s > 127 {
                return None;
            }
            i = i + 1;
        }
        Some(self.div(rhs))
    }

    /// The power, or `None` when an exponent leaves the `i8` range.
    pub fn checked_powi(self, n: i8) -> (r: Option<Self>)
        ensures
            r is Some <==> fits_i8(exponent_scale(self.0@, n as int)),
            r is Some ==> exponents(r->0) == exponent_scale(self.0@, n as int),
    {
        let mut i: usize = 0;
        while i < 7
            invariant
                i <= 7,
                forall|j: int| 0 <= j < i ==> i8::MIN <= #[trigger] exponent_scale(self.0@, n as int)[j] <= i8::MAX,
            decreases 7 - i,
        {
            let a = self.0[i] as i32;
            let b = n as i32;
            assert(-16384 <= a * b <= 16384) by (nonlinear_arith)
                requires
                    -128 <= a <= 127,
                    -128 <= b <= 127,
            ;
            let s = a * b;
            assert(s == exponent_scale(self.0@, n as int)[i as int]);
            if s < -128 || s > 127 {
                return None;
            }
            i = i + 1;
        }
        Some(self.powi(n))
    }

    /// Parse a unit expression: products (`*` or juxtaposition), quotients
    /// (`/`), parentheses and integer powers (`^n`) of the SI base units and
    /// the named derived units. Blank input is dimensionless.
    pub fn parse(unit: &str) -> (r: Result<Self, UnitError>)
        ensures
            (forall|i: int| 0 <= i < unit@.len() ==> unicode_whitespace(#[trigger] unit@[i])) ==> r
                == Ok::<Dimension, UnitError>(Dimension([0, 0, 0, 0, 0, 0, 0])),
            single_word(unit@) matches Some(Some(d)) ==> r == Ok::<Dimension, UnitError>(d),
            single_word(unit@) matches Some(None) ==> r matches Err(UnitError::Unknown(_)),
            product_exponents(unit@) matches Ok(e) ==> (r matches Ok(d) && exponents(d) == e),
            product_exponents(unit@) == Err::<Seq<int>, FlatFailure>(FlatFailure::UnknownWord) ==> r matches Err(
                UnitError::Unknown(_),
            ),
            product_exponents(unit@) == Err::<Seq<int>, FlatFailure>(FlatFailure::Overflow) ==> r matches Err(
                UnitError::BadExponent(_),
            ),
            product_exponents(unit@) == Err::<Seq<int>, FlatFailure>(FlatFailure::StraySymbol) ==> r matches Err(
                UnitError::Syntax(_),
            ),
    {
        let cs = chars_of(unit);
        parse_chars(cs.as_slice())
    }
}

/// `name` is the one-letter word `a`.
fn is1(name: &[char], a: char) -> (r: bool)
    ensures
        r == (name@ == seq![a]),
{
    let r = name.len() == 1 && name[0] == a;
    proof {
        if name@.len() == 1 && name@[0] == a {
            assert(name@ =~= seq![a]);
        }
    }
    r
}

/// `name` is the two-letter word `ab`.
fn is2(name: &[char], a: char, b: char) -> (r: bool)
    ensures
        r == (name@ == seq![a, b]),
{
    let r = name.len() == 2 && name[0] == a && name[1] == b;
    proof {
        if name@.len() == 2 && name@[0] == a && name@[1] == b {
            assert(name@ =~= seq![a, b]);
        }
    }
    r
}

/// `name` is the three-letter word `abc`.
fn is3(name: &[char], a: char, b: char, c: char) -> (r: bool)
    ensures
        r == (name@ == seq![a, b, c]),
{
    let r = name.len() == 3 && name[0] == a && name[1] == b && name[2] == c;
    proof {
        if name@.len() == 3 && name@[0] == a && name@[1] == b && name@[2] == c {
            assert(name@ =~= seq![a, b, c]);
        }
    }
    r
}

/// The dimension of one named unit.
pub open spec fn atom_dimension(name: Seq<char>) -> Option<Dimension> {
    if name == Seq::<char>::empty() || name == seq!['1'] || name == seq!['r', 'a', 'd'] {
        Some(Dimension([0i8, 0i8, 0i8, 0i8, 0i8, 0i8, 0i8]))
    } else if name == seq!['k', 'g'] {
        Some(Dimension([1i8, 0i8, 0i8, 0i8, 0i8, 0i8, 0i8]))
    } else if name == seq!['m'] {
        Some(Dimension([0i8, 1i8, 0i8, 0i8, 0i8, 0i8, 0i8]))
    } else if name == seq!['s'] {
        Some(Dimension([0i8, 0i8, 1i8, 0i8, 0i8, 0i8, 0i8]))
    } else if name == seq!['A'] {
        Some(Dimension([0i8, 0i8, 0i8, 1i8, 0i8, 0i8, 0i8]))
    } else if name == seq!['K'] {
        Some(Dimension([0i8, 0i8, 0i8, 0i8, 1i8, 0i8, 0i8]))
    } else if name == seq!['m', 'o', 'l'] {
        Some(Dimension([0i8, 0i8, 0i8, 0i8, 0i8, 1i8, 0i8]))
    } else if name == seq!['c', 'd'] {
        Some(Dimension([0i8, 0i8, 0i8, 0i8, 0i8, 0i8, 1i8]))
    } else if name == seq!['H', 'z'] {
        Some(Dimension([0i8, 0i8, -1i8, 0i8, 0i8, 0i8, 0i8]))
    } else if name == seq!['N'] {
        Some(Dimension([1i8, 1i8, -2i8, 0i8, 0i8, 0i8, 0i8]))
    } else if name == seq!['P', 'a'] {
        Some(Dimension([1i8, -1i8, -2i8, 0i8, 0i8, 0i8, 0i8]))
    } else if name == seq!['J'] {
        Some(Dimension([1i8, 2i8, -2i8, 0i8, 0i8, 0i8, 0i8]))
    } else if name == seq!['W'] {
        Some(Dimension([1i8, 2i8, -3i8, 0i8, 0i8, 0i8, 0i8]))
    } else if name == seq!['C'] {
        Some(Dimension([0i8, 0i8, 1i8, 1i8, 0i8, 0i8, 0i8]))
    } else if name == seq!['V'] {
        Some(Dimension([1i8, 2i8, -3i8, -1i8, 0i8, 0i8, 0i8]))
    } else if name == seq!['O', 'h', 'm'] {
        Some(Dimension([1i8, 2i8, -3i8, -2i8, 0i8, 0i8, 0i8]))
    } else if name == seq!['F'] {
        Some(Dimension([-1i8, -2i8, 4i8, 2i8, 0i8, 0i8, 0i8]))
    } else if name == seq!['H'] {
        Some(Dimension([1i8, 2i8, -2i8, -2i8, 0i8, 0i8, 0i8]))
    } else if name == seq!['T'] {
        Some(Dimension([1i8, 0i8, -2i8, -1i8, 0i8, 0i8, 0i8]))
    } else if name == seq!['W', 'b'] {
        Some(Dimension([1i8, 2i8, -2i8, -1i8, 0i8, 0i8, 0i8]))
    } else {
        None
    }
}

/// The dimension of a named unit, if the name is known.
pub fn unit_atom(name: &[char]) -> (r: Option<Dimension>)
    ensures
        r == atom_dimension(name@),
{
    if name.len() == 0 || is1(name, '1') || is3(name, 'r', 'a', 'd') {
        proof {
            if name.len() == 0 {
                assert(name@ =~= Seq::<char>::empty());
            }
        }
        Some(Dimension([0, 0, 0, 0, 0, 0, 0]))
    } else if is2(name, 'k', 'g') {
        Some(Dimension([1, 0, 0, 0, 0, 0, 0]))
    } else if is1(name, 'm') {
        Some(Dimension([0, 1, 0, 0, 0, 0, 0]))
    } else if is1(name, 's') {
        Some(Dimension([0, 0, 1, 0, 0, 0, 0]))
    } else if is1(name, 'A') {
        Some(Dimension([0, 0, 0, 1, 0, 0, 0]))
    } else if is1(name, 'K') {
        Some(Dimension([0, 0, 0, 0, 1, 0, 0]))
    } else if is3(name, 'm', 'o', 'l') {
        Some(Dimension([0, 0, 0, 0, 0, 1, 0]))
    } else if is2(name, 'c', 'd') {
        Some(Dimension([0, 0, 0, 0, 0, 0, 1]))
    } else if is2(name, 'H', 'z') {
        Some(Dimension([0, 0, -1, 0, 0, 0, 0]))
    } else if is1(name, 'N') {
        Some(Dimension([1, 1, -2, 0, 0, 0, 0]))
    } else if is2(name, 'P', 'a') {
        Some(Dimension([1, -1, -2, 0, 0, 0, 0]))
    } else if is1(name, 'J') {
        Some(Dimension([1, 2, -2, 0, 0, 0, 0]))
    } else if is1(name, 'W') {
        Some(Dimension([1, 2, -3, 0, 0, 0, 0]))
    } else if is1(name, 'C') {
        Some(Dimension([0, 0, 1, 1, 0, 0, 0]))
    } else if is1(name, 'V') {
        Some(Dimension([1, 2, -3, -1, 0, 0, 0]))
    } else if is3(name, 'O', 'h', 'm') {
        Some(Dimension([1, 2, -3, -2, 0, 0, 0]))
    } else if is1(name, 'F') {
        Some(Dimension([-1, -2, 4, 2, 0, 0, 0]))
    } else if is1(name, 'H') {
        Some(Dimension([1, 2, -2, -2, 0, 0, 0]))
    } else if is1(name, 'T') {
        Some(Dimension([1, 0, -2, -1, 0, 0, 0]))
    } else if is2(name, 'W', 'b') {
        Some(Dimension([1, 2, -2, -1, 0, 0, 0]))
    } else {
        None
    }
}

/// The characters `cs[lo..hi]`, copied.
pub fn sub_chars(cs: &[char], lo: usize, hi: usize) -> (r: Vec<char>)
    requires
        lo <= hi <= cs@.len(),
    ensures
        r@ == cs@.subrange(lo as int, hi as int),
{
    let mut r: Vec<char> = Vec::new();
    let mut i = lo;
    while i < hi
        invariant
            lo <= i <= hi <= cs@.len(),
            r@ == cs@.subrange(lo as int, i as int),
        decreases hi - i,
    {
        r.push(cs[i]);
        i = i + 1;
        proof {
            assert(r@ =~= cs@.subrange(lo as int, i as int));
        }
    }
    r
}

/// The first position at or after `pos` that is not whitespace.
/// The first position from `p` on that is not whitespace (or the end).
pub open spec fn ws_end(cs: Seq<char>, p: int) -> int
    decreases cs.len() - p,
{
    if 0 <= p < cs.len() && unicode_whitespace(cs[p]) {
        ws_end(cs, p + 1)
    } else {
        p
    }
}

/// A character that can stand in a unit name.
pub open spec fn name_char(c: char) -> bool {
    unicode_alphabetic(c) || c == '_' || c == '1'
}

/// The end of the run of name characters that starts at `p`.
pub open spec fn name_end(cs: Seq<char>, p: int) -> int
    decreases cs.len() - p,
{
    if 0 <= p < cs.len() && name_char(cs[p]) {
        name_end(cs, p + 1)
    } else {
        p
    }
}

fn skip_ws(cs: &[char], pos: usize) -> (r: usize)
    requires
        pos <= cs@.len(),
    ensures
        pos <= r <= cs@.len(),
        forall|i: int| pos <= i < r ==> unicode_whitespace(#[trigger] cs@[i]),
        r < cs@.len() ==> !unicode_whitespace(cs@[r as int]),
        r == ws_end(cs@, pos as int),
{
    let mut p = pos;
    while p < cs.len() && is_whitespace(cs[p])
        invariant
            pos <= p <= cs@.len(),
            forall|i: int| pos <= i < p ==> unicode_whitespace(#[trigger] cs@[i]),
            ws_end(cs@, p as int) == ws_end(cs@, pos as int),
        decreases cs@.len() - p,
    {
        p = p + 1;
    }
    p
}

/// The name run ends within the text.
proof fn lemma_name_end_bound(cs: Seq<char>, p: int)
    requires
        0 <= p <= cs.len(),
    ensures
        p <= name_end(cs, p) <= cs.len(),
    decreases cs.len() - p,
{
    if p < cs.len() && name_char(cs[p]) {
        lemma_name_end_bound(cs, p + 1);
    }
}

/// The text is one unit word between optional whitespace: where it
/// starts, where the word ends, and the word's dimension.
pub open spec fn single_word(cs: Seq<char>) -> Option<Option<Dimension>> {
    let s = ws_end(cs, 0);
    let e = name_end(cs, s);
    if s < cs.len() && cs[s] != '(' && ws_end(cs, e) == cs.len() {
        Some(atom_dimension(cs.subrange(s, e)))
    } else {
        None
    }
}

/// Exponent-wise sum of integer exponent vectors.
pub open spec fn exps_add(a: Seq<int>, b: Seq<int>) -> Seq<int> {
    Seq::new(7, |i: int| a[i] + b[i])
}

/// Exponent-wise difference of integer exponent vectors.
pub open spec fn exps_sub(a: Seq<int>, b: Seq<int>) -> Seq<int> {
    Seq::new(7, |i: int| a[i] - b[i])
}

/// Why a unit text is not read as a flat product of words
/// ([`product_rest`]).
#[derive(PartialEq, Eq, Structural)]
pub enum FlatFailure {
    /// A word that is not a known unit.
    UnknownWord,
    /// An exponent that leaves the `i8` range.
    Overflow,
    /// A character that is neither a word, whitespace, `*`, `/` nor `(`.
    StraySymbol,
    /// Parentheses or a power: outside the flat reading.
    Nested,
}

/// The exponents that the unit text from `p` on multiplies into `acc`:
/// further words (SI symbols and the named units), each joined by `*`,
/// `/` or juxtaposition. The first obstacle met is reported: a
/// parenthesis or power ([`FlatFailure::Nested`]), an unknown word, an
/// exponent leaving the `i8` range, or a stray symbol. A `*` or `/` with no
/// word after it joins the empty word, which is dimensionless.
pub open spec fn product_rest(cs: Seq<char>, p: int, acc: Seq<int>) -> Result<Seq<int>, FlatFailure>
    decreases cs.len() - p,
{
    let s = ws_end(cs, p);
    if s >= cs.len() {
        Ok(acc)
    } else {
        let c = cs[s];
        let op = c == '*' || c == '/';
        let w = if op {
            ws_end(cs, s + 1)
        } else {
            s
        };
        let e = name_end(cs, w);
        let t = ws_end(cs, e);
        if !op && !unicode_alphabetic(c) && c != '(' {
            Err(FlatFailure::StraySymbol)
        } else if w < cs.len() && cs[w] == '(' {
            Err(FlatFailure::Nested)
        } else {
            match atom_dimension(cs.subrange(w, e)) {
                None => Err(FlatFailure::UnknownWord),
                Some(d) => {
                    if (t < cs.len() && cs[t] == '^') || !(p < t <= cs.len()) {
                        Err(FlatFailure::Nested)
                    } else {
                        let next = if c == '/' {
                            exps_sub(acc, exponents(d))
                        } else {
                            exps_add(acc, exponents(d))
                        };
                        if fits_i8(next) {
                            product_rest(cs, t, next)
                        } else {
                            Err(FlatFailure::Overflow)
                        }
                    }
                },
            }
        }
    }
}

/// How a unit text reads as a flat product of words joined by `*`, `/` or
/// juxtaposition ([`product_rest`]); blank text is dimensionless.
pub open spec fn product_exponents(cs: Seq<char>) -> Result<Seq<int>, FlatFailure> {
    let s = ws_end(cs, 0);
    if s >= cs.len() {
        Ok(Seq::new(7, |i: int| 0int))
    } else {
        let e = name_end(cs, s);
        let t = ws_end(cs, e);
        if cs[s] == '(' {
            Err(FlatFailure::Nested)
        } else {
            match atom_dimension(cs.subrange(s, e)) {
                None => Err(FlatFailure::UnknownWord),
                Some(d) => if t < cs.len() && cs[t] == '^' {
                    Err(FlatFailure::Nested)
                } else {
                    product_rest(cs, t, exponents(d))
                },
            }
        }
    }
}

/// The `i8` exponent sum and difference of two dimensions, as integer
/// vectors.
proof fn lemma_exponent_ops(a: Dimension, b: Dimension)
    ensures
        exponent_sum(a.0@, b.0@) == exps_add(exponents(a), exponents(b)),
        exponent_difference(a.0@, b.0@) == exps_sub(exponents(a), exponents(b)),
{
    assert(exponent_sum(a.0@, b.0@) =~= exps_add(exponents(a), exponents(b)));
    assert(exponent_difference(a.0@, b.0@) =~= exps_sub(exponents(a), exponents(b)));
}

/// Skipping whitespace twice is skipping it once.
proof fn lemma_ws_end_idempotent(cs: Seq<char>, p: int)
    requires
        0 <= p <= cs.len(),
    ensures
        ws_end(cs, ws_end(cs, p)) == ws_end(cs, p),
        p <= ws_end(cs, p) <= cs.len(),
    decreases cs.len() - p,
{
    if p < cs.len() && unicode_whitespace(cs[p]) {
        lemma_ws_end_idempotent(cs, p + 1);
    }
}

fn parse_chars(cs: &[char]) -> (r: Result<Dimension, UnitError>)
    ensures
        (forall|i: int| 0 <= i < cs@.len() ==> unicode_whitespace(#[trigger] cs@[i])) ==> r
            == Ok::<Dimension, UnitError>(Dimension([0, 0, 0, 0, 0, 0, 0])),
        single_word(cs@) matches Some(Some(d)) ==> r == Ok::<Dimension, UnitError>(d),
        single_word(cs@) matches Some(None) ==> r matches Err(UnitError::Unknown(_)),
        product_exponents(cs@) matches Ok(e) ==> (r matches Ok(d) && exponents(d) == e),
        product_exponents(cs@) == Err::<Seq<int>, FlatFailure>(FlatFailure::UnknownWord) ==> r matches Err(UnitError::Unknown(_)),
        product_exponents(cs@) == Err::<Seq<int>, FlatFailure>(FlatFailure::Overflow) ==> r matches Err(UnitError::BadExponent(_)),
        product_exponents(cs@) == Err::<Seq<int>, FlatFailure>(FlatFailure::StraySymbol) ==> r matches Err(UnitError::Syntax(_)),
    decreases cs@.len(), 1int,
{
    proof {
        lemma_ws_end_idempotent(cs@, 0);
        let s0 = ws_end(cs@, 0);
        let e0 = name_end(cs@, s0);
        lemma_name_end_bound(cs@, s0);
        lemma_ws_end_idempotent(cs@, e0);
    }
    let mut pos = skip_ws(cs, 0);
    if pos >= cs.len() {
        proof {
            assert(exponents(Dimension([0, 0, 0, 0, 0, 0, 0])) =~= Seq::new(7, |i: int| 0int));
        }
        return Ok(Dimension::dimensionless());
    }
    let (mut value, p) = match factor(cs, pos) {
        Ok(x) => x,
        Err(e) => return Err(e),
    };
    pos = p;
    loop
        invariant
            pos <= cs@.len(),
            single_word(cs@) matches Some(Some(d)) ==> (value == d && pos == cs@.len()),
            !(single_word(cs@) matches Some(None)),
            product_exponents(cs@) != Err::<Seq<int>, FlatFailure>(FlatFailure::Nested) ==> product_rest(
                cs@,
                pos as int,
                exponents(value),
            ) == product_exponents(cs@),
        ensures
            product_exponents(cs@) != Err::<Seq<int>, FlatFailure>(FlatFailure::Nested) ==> product_exponents(cs@) == Ok::<
                Seq<int>,
                FlatFailure,
            >(exponents(value)),
        decreases cs@.len() - pos,
    {
        let ghost p0 = pos as int;
        proof {
            lemma_ws_end_idempotent(cs@, p0);
        }
        pos = skip_ws(cs, pos);
        if pos >= cs.len() {
            break;
        }
        let c = cs[pos];
        proof {
            let w = if c == '*' || c == '/' { ws_end(cs@, pos + 1) } else { pos as int };
            lemma_ws_end_idempotent(cs@, pos + 1);
            lemma_name_end_bound(cs@, w);
            lemma_ws_end_idempotent(cs@, name_end(cs@, w));
        }
        if c == '*' || c == '/' {
            pos = pos + 1;
            let (d, p) = match factor(cs, pos) {
                Ok(x) => x,
                Err(e) => return Err(e),
            };
            pos = p;
            proof {
                lemma_exponent_ops(value, d);
            }
            let combined = if c == '*' {
                value.checked_mul(d)
            } else {
                value.checked_div(d)
            };
            match combined {
                Some(v) => value = v,
                None => return Err(UnitError::BadExponent(string_of(cs))),
            }
        } else if is_alphabetic(c) || c == '(' {
            let (d, p) = match factor(cs, pos) {
                Ok(x) => x,
                Err(e) => return Err(e),
            };
            pos = p;
            proof {
                lemma_exponent_ops(value, d);
            }
            match value.checked_mul(d) {
                Some(v) => value = v,
                None => return Err(UnitError::BadExponent(string_of(cs))),
            }
        } else {
            let rest = sub_chars(cs, pos, cs.len());
            return Err(UnitError::Syntax(string_of(rest.as_slice())));
        }
    }
    Ok(value)
}

fn factor(cs: &[char], pos: usize) -> (r: Result<(Dimension, usize), UnitError>)
    requires
        pos <= cs@.len(),
    ensures
        r matches Ok((d, p)) ==> pos <= p <= cs@.len(),
        r matches Ok((d, p)) ==> (pos < cs@.len() && (unicode_alphabetic(cs@[pos as int]) || cs@[pos as int] == '(')
            ==> p > pos),
        ({
            let s = ws_end(cs@, pos as int);
            let e = name_end(cs@, s);
            let t = ws_end(cs@, e);
            (s == cs@.len() || cs@[s] != '(') ==> (atom_dimension(cs@.subrange(s, e)) matches Some(d) ==> ((t == cs@.len()
                || cs@[t] != '^') ==> r == Ok::<(Dimension, usize), UnitError>((d, t as usize))))
        }),
        ({
            let s = ws_end(cs@, pos as int);
            let e = name_end(cs@, s);
            (s == cs@.len() || cs@[s] != '(') && atom_dimension(cs@.subrange(s, e)) is None ==> r matches Err(
                UnitError::Unknown(_),
            )
        }),
    decreases cs@.len(), 0int,
{
    let mut pos = skip_ws(cs, pos);
    let ghost entry = pos;
    let mut value;
    if pos < cs.len() && cs[pos] == '(' {
        pos = pos + 1;
        let start = pos;
        let mut depth: usize = 1;
        while pos < cs.len() && depth > 0
            invariant
                start <= pos <= cs@.len(),
                start >= 1,
                depth <= pos - start + 1,
                depth == 0 ==> pos >= start + 1,
            decreases cs@.len() - pos,
        {
            if cs[pos] == '(' {
                depth = depth + 1;
            } else if cs[pos] == ')' {
                depth = depth - 1;
            }
            pos = pos + 1;
        }
        if depth != 0 {
            let rest = sub_chars(cs, start, cs.len());
            return Err(UnitError::Syntax(string_of(rest.as_slice())));
        }
        let inner = sub_chars(cs, start, pos - 1);
        value = match parse_chars(inner.as_slice()) {
            Ok(v) => v,
            Err(e) => return Err(e),
        };
    } else {
        let start = pos;
        while pos < cs.len() && (is_alphabetic(cs[pos]) || cs[pos] == '_' || cs[pos] == '1')
            invariant
                start <= pos <= cs@.len(),
                name_end(cs@, pos as int) == name_end(cs@, start as int),
            decreases cs@.len() - pos,
        {
            pos = pos + 1;
        }
        let name = sub_chars(cs, start, pos);
        value = match unit_atom(name.as_slice()) {
            Some(v) => v,
            None => return Err(UnitError::Unknown(string_of(name.as_slice()))),
        };
    }
    pos = skip_ws(cs, pos);
    if pos < cs.len() && cs[pos] == '^' {
        pos = pos + 1;
        let start = pos;
        if pos < cs.len() && (cs[pos] == '+' || cs[pos] == '-') {
            pos = pos + 1;
        }
        while pos < cs.len() && '0' <= cs[pos] && cs[pos] <= '9'
            invariant
                start <= pos <= cs@.len(),
            decreases cs@.len() - pos,
        {
            pos = pos + 1;
        }
        let text = sub_chars(cs, start, pos);
        let n = match parse_i8(text.as_slice()) {
            Some(n) => n,
            None => return Err(UnitError::BadExponent(string_of(text.as_slice()))),
        };
        value = match value.checked_powi(n) {
            Some(v) => v,
            None => return Err(UnitError::BadExponent(string_of(text.as_slice()))),
        };
    }
    Ok((value, pos))
}

/// The symbol of base dimension `k`: kilogram, metre, second, ampere,
/// kelvin, mole, candela.
pub open spec fn unit_name(k: int) -> Seq<char> {
    if k == 0 {
        "kg"@
    } else if k == 1 {
        "m"@
    } else if k == 2 {
        "s"@
    } else if k == 3 {
        "A"@
    } else if k == 4 {
        "K"@
    } else if k == 5 {
        "mol"@
    } else {
        "cd"@
    }
}

/// One factor: the base symbol, with `^` and the exponent unless it is one.
pub open spec fn dimension_part(k: int, e: i8) -> Seq<char> {
    if e == 1 {
        unit_name(k)
    } else {
        unit_name(k) + "^"@ + crate::rational::int_spelling(e as int)
    }
}

/// The factors of the first `k` base dimensions with nonzero exponent,
/// separated by spaces.
pub open spec fn dimension_words(exps: Seq<i8>, k: int) -> Seq<char>
    decreases k,
{
    if k <= 0 {
        seq![]
    } else {
        let prev = dimension_words(exps, k - 1);
        if exps[k - 1] == 0 {
            prev
        } else if prev.len() == 0 {
            dimension_part(k - 1, exps[k - 1])
        } else {
            prev + " "@ + dimension_part(k - 1, exps[k - 1])
        }
    }
}

fn unit_name_exec(k: usize) -> (r: &'static str)
    ensures
        r@ == unit_name(k as int),
{
    if k == 0 {
        "kg"
    } else if k == 1 {
        "m"
    } else if k == 2 {
        "s"
    } else if k == 3 {
        "A"
    } else if k == 4 {
        "K"
    } else if k == 5 {
        "mol"
    } else {
        "cd"
    }
}

impl Dimension {
    /// The rendering: the nonzero factors in base order, or `1` for the
    /// dimensionless.
    pub open spec fn text(self) -> Seq<char> {
        let w = dimension_words(self.0@, 7);
        if w.len() == 0 {
            "1"@
        } else {
            w
        }
    }

    /// The rendering of the dimension ([`Dimension::text`]), such as
    /// `kg m^2 s^-2`.
    pub fn to_string(&self) -> (r: String)
        ensures
            r@ == self.text(),
    {
        let mut out: Vec<char> = Vec::new();
        let mut k: usize = 0;
        while k < 7
            invariant
                k <= 7,
                self.0@.len() == 7,
                out@ == dimension_words(self.0@, k as int),
            decreases 7 - k,
        {
            let e = self.0[k];
            if e != 0 {
                if out.len() > 0 {
                    crate::text::push_str(&mut out, " ");
                }
                crate::text::push_str(&mut out, unit_name_exec(k));
                if e != 1 {
                    crate::text::push_str(&mut out, "^");
                    crate::text::push_chars(&mut out, &crate::text::int_chars(e as i64));
                }
            }
            k = k + 1;
            proof {
                assert(out@ =~= dimension_words(self.0@, k as int));
            }
        }
        if out.len() == 0 {
            crate::text::push_str(&mut out, "1");
        }
        crate::units::string_of(out.as_slice())
    }
}

} // verus!
