//! Caller-owned immutable structural terms: handles, atoms and nodes, the
//! budgets that bound work on them, the canonical spelling of their numeric
//! atoms, and the primitives of their canonical wire form.
//!
//! Term identity preserves retained syntax. Construction does not sort,
//! flatten, commute, cancel, factor, reassociate, or otherwise apply
//! algebraic laws.
use vstd::prelude::*;
use crate::rational::{Rational, decimal_integer_syntax, decimal_integer_value, decimal_digits_value, int_spelling, parse_decimal_integer, integer_spelling};

verus! {

/// Store-relative compact term handle.
#[derive(Clone, Copy, Debug, PartialEq, Eq, PartialOrd, Ord, Hash, Structural)]
pub struct TermId {
    store: u64,
    index: u32,
}

impl TermId {
    /// The position of the term in its store.
    pub closed spec fn position(self) -> nat {
        self.index as nat
    }

    /// The store the handle belongs to.
    pub closed spec fn owner(self) -> u64 {
        self.store
    }

    /// The position of the term in its store.
    pub fn index(self) -> (r: usize)
        ensures
            r == self.position(),
    {
        self.index as usize
    }

    /// The handle of position `index` in store `store`.
    pub(crate) fn handle(store: u64, index: u32) -> (r: TermId)
        ensures
            r.owner() == store,
            r.position() == index as nat,
    {
        TermId { store, index }
    }

    /// The store the handle belongs to.
    pub(crate) fn store_of(self) -> (r: u64)
        ensures
            r == self.owner(),
    {
        self.store
    }

    /// Handles are equal exactly when store and position are; positions
    /// fit in 32 bits.
    pub proof fn lemma_handle_identity(a: TermId, b: TermId)
        ensures
            (a == b) <==> (a.owner() == b.owner() && a.position() == b.position()),
            a.position() <= u32::MAX,
    {
    }
}

/// Index of an interned symbol.
#[derive(Clone, Copy, Debug, PartialEq, Eq, Hash, Structural)]
pub struct SymbolId(pub u32);

impl SymbolId {
    /// The position of the symbol in its store.
    pub fn index(self) -> (r: usize)
        ensures
            r == self.0,
    {
        self.0 as usize
    }
}

/// Stable cross-store identity for one retained structural term.
#[derive(Clone, Copy, Debug, PartialEq, Eq, Hash)]
pub struct TermDigest(pub [u8; 32]);

impl TermDigest {
    /// The digest bytes.
    pub fn as_bytes(&self) -> (r: &[u8; 32])
        ensures
            r == &self.0,
    {
        &self.0
    }

    /// The digest in lowercase hexadecimal, two digits per byte.
    pub fn to_string(&self) -> (r: String)
        ensures
            r@ == crate::receipt::lower_hex(self.0@),
    {
        crate::receipt::hex_of(&self.0)
    }
}

/// Explicit bound for construction, traversal, import, and canonical wire
/// work.
#[derive(Clone, Copy, Debug, PartialEq, Eq, Structural)]
pub struct TermBudget {
    pub max_nodes: usize,
    pub max_depth: usize,
    pub max_children_per_node: usize,
    pub max_atom_bytes: usize,
    pub max_wire_bytes: usize,
}

impl TermBudget {
    /// The default budget.
    pub open spec fn default_spec() -> TermBudget {
        TermBudget {
            max_nodes: 1_000_000,
            max_depth: 100_000,
            max_children_per_node: 100_000,
            max_atom_bytes: 1_048_576,
            max_wire_bytes: 268_435_456,
        }
    }
}

impl Default for TermBudget {
    fn default() -> (r: TermBudget)
        ensures
            r == TermBudget::default_spec(),
    {
        TermBudget {
            max_nodes: 1_000_000,
            max_depth: 100_000,
            max_children_per_node: 100_000,
            max_atom_bytes: 1_048_576,
            max_wire_bytes: 268_435_456,
        }
    }
}

/// A namespaced symbol name.
#[derive(Debug, PartialEq, Eq, Hash)]
pub struct SymbolName {
    pub namespace: String,
    pub name: String,
}

impl SymbolName {
    /// A symbol `namespace::name`.
    pub fn new(namespace: &str, name: &str) -> (r: SymbolName)
        ensures
            r.namespace@ == namespace@,
            r.name@ == name@,
    {
        SymbolName { namespace: namespace.to_owned(), name: name.to_owned() }
    }
}

/// Named mathematical constants.
#[derive(Clone, Copy, Debug, PartialEq, Eq, Hash, Structural)]
pub enum SymbolicConstant {
    Pi,
    E,
    ImaginaryUnit,
    Infinity,
    ComplexInfinity,
    Undefined,
}

/// Relational operators.
#[derive(Clone, Copy, Debug, PartialEq, Eq, Hash, Structural)]
pub enum RelationOperator {
    Equal,
    NotEqual,
    Less,
    LessEqual,
    Greater,
    GreaterEqual,
}

/// Boolean connectives.
#[derive(Clone, Copy, Debug, PartialEq, Eq, Hash, Structural)]
pub enum BooleanOperator {
    Not,
    And,
    Or,
    Xor,
    Implies,
    Equivalent,
}

/// Kinds of collection.
#[derive(Debug, PartialEq, Eq, Hash)]
pub enum CollectionKind {
    Tuple,
    List,
    Array { shape: Vec<usize> },
}

/// Kinds of rewrite rule.
#[derive(Clone, Copy, Debug, PartialEq, Eq, Hash, Structural)]
pub enum RuleKind {
    Immediate,
    Delayed,
    Pattern,
}

/// Kinds of variable binder.
#[derive(Clone, Copy, Debug, PartialEq, Eq, Hash, Structural)]
pub enum BinderKind {
    Lambda,
    Sum,
    Product,
    Integral,
    Limit,
    Local,
}

/// One case of a piecewise term.
#[derive(Clone, Copy, Debug, PartialEq, Eq, Hash, Structural)]
pub struct PiecewiseCase {
    pub value: TermId,
    pub condition: TermId,
}

/// Canonical exact decimal `coefficient · 10^-scale`.
#[derive(Debug, PartialEq, Eq, Hash)]
pub struct ExactDecimal {
    coefficient: String,
    scale: i64,
}

/// Canonical decimal significand and exponent with an explicit
/// approximation precision.
#[derive(Debug, PartialEq, Eq, Hash)]
pub struct PrecisionReal {
    significand: String,
    exponent10: i64,
    precision_bits: u32,
}

/// Canonical atom input.
#[derive(Debug, PartialEq, Eq)]
pub enum Atom {
    Integer(String),
    Rational(Rational),
    ExactDecimal(ExactDecimal),
    ExactIeee754Bits(u64),
    MachineFloatBits(u64),
    PrecisionReal(PrecisionReal),
    String(String),
    Bytes(Vec<u8>),
    Symbol(SymbolName),
    Boolean(bool),
    Constant(SymbolicConstant),
    /// De Bruijn index: zero names the nearest bound variable.
    BoundVariable(u32),
}

/// Minimal generic retained node vocabulary. Every vector is structurally
/// ordered.
#[derive(Debug, PartialEq, Eq)]
pub enum TermNode {
    Atom(Atom),
    Apply { head: TermId, arguments: Vec<TermId> },
    Relation { operator: RelationOperator, left: TermId, right: TermId },
    Boolean { operator: BooleanOperator, arguments: Vec<TermId> },
    Condition { expression: TermId, condition: TermId },
    Piecewise { cases: Vec<PiecewiseCase>, otherwise: Option<TermId> },
    Collection { kind: CollectionKind, elements: Vec<TermId> },
    /// Entry order is retained syntax; this is not an unordered map.
    OrderedMap { entries: Vec<(TermId, TermId)> },
    Index { target: TermId, indices: Vec<TermId> },
    Slice { target: TermId, start: Option<TermId>, end: Option<TermId>, step: Option<TermId> },
    Rule { kind: RuleKind, pattern: TermId, replacement: TermId, condition: Option<TermId> },
    /// Bounds are outside the new scope; `body` uses de Bruijn indices.
    Binder { kind: BinderKind, variable_count: u32, bounds: Vec<TermId>, body: TermId },
    Held { expression: TermId },
}

/// Store size: terms, symbols, and portable logical schema bytes.
#[derive(Clone, Copy, Debug, PartialEq, Eq, Structural)]
pub struct StoreMetrics {
    pub terms: usize,
    pub symbols: usize,
    pub logical_bytes: u64,
}

/// Errors of term construction, traversal and the canonical wire.
#[derive(Clone, Copy, Debug, PartialEq, Eq)]
pub enum TermError {
    ForeignTerm,
    UnknownTerm,
    InvalidAtom(&'static str),
    InvalidNode(&'static str),
    InvalidBinder(&'static str),
    BudgetExceeded { resource: &'static str, limit: usize },
    HandleSpaceExhausted,
    InvalidWire(&'static str),
    NonCanonicalWire,
}


/// A numeral is a canonical integer spelling when it parses and prints back
/// unchanged.
pub open spec fn canonical_integer_spec(text: Seq<char>) -> bool {
    decimal_integer_syntax(text) && int_spelling(decimal_integer_value(text)) == text
}

/// The numeral itself when it is the canonical spelling of an integer.
pub(crate) fn canonical_integer(text: &str) -> (r: Result<String, TermError>)
    ensures
        r is Ok <==> canonical_integer_spec(text@),
        r matches Ok(s) ==> s@ == text@,
        !decimal_integer_syntax(text@) ==> r == Err::<String, TermError>(TermError::InvalidAtom("invalid canonical integer")),
        decimal_integer_syntax(text@) && !canonical_integer_spec(text@) ==> r == Err::<String, TermError>(
            TermError::InvalidAtom("non-canonical integer spelling"),
        ),
{
    let value = match parse_decimal_integer(text) {
        Some(v) => v,
        None => {
            return Err(TermError::InvalidAtom("invalid canonical integer"));
        },
    };
    let canonical = integer_spelling(&value);
    let given = text.to_owned();
    if canonical == given {
        Ok(canonical)
    } else {
        Err(TermError::InvalidAtom("non-canonical integer spelling"))
    }
}

impl Atom {
    /// An integer atom from its canonical decimal spelling.
    pub fn integer(text: &str) -> (r: Result<Atom, TermError>)
        ensures
            r is Ok <==> canonical_integer_spec(text@),
            r matches Ok(a) ==> (a matches Atom::Integer(s) && s@ == text@),
            !decimal_integer_syntax(text@) ==> r == Err::<Atom, TermError>(TermError::InvalidAtom("invalid canonical integer")),
            decimal_integer_syntax(text@) && !canonical_integer_spec(text@) ==> r == Err::<Atom, TermError>(
                TermError::InvalidAtom("non-canonical integer spelling"),
            ),
    {
        match canonical_integer(text) {
            Ok(s) => Ok(Atom::Integer(s)),
            Err(e) => Err(e),
        }
    }
}


/// The number of trailing `'0'` characters.
pub open spec fn trailing_zeros(s: Seq<char>) -> nat
    decreases s.len(),
{
    if s.len() > 0 && s.last() == '0' {
        1 + trailing_zeros(s.drop_last())
    } else {
        0
    }
}

/// A coefficient with its trailing zeros moved into the exponent; the
/// coefficient `0` takes the exponent `0`.
pub open spec fn normalized(coefficient: Seq<char>, exponent: int) -> (Seq<char>, int) {
    if coefficient == seq!['0'] {
        (coefficient, 0)
    } else {
        (coefficient.subrange(0, coefficient.len() - trailing_zeros(coefficient)), exponent + trailing_zeros(coefficient))
    }
}

proof fn lemma_trailing_zeros_bound(s: Seq<char>)
    ensures
        trailing_zeros(s) <= s.len(),
        forall|i: int| s.len() - trailing_zeros(s) <= i < s.len() ==> #[trigger] s[i] == '0',
        trailing_zeros(s) < s.len() ==> s[s.len() - trailing_zeros(s) - 1] != '0',
    decreases s.len(),
{
    if s.len() > 0 && s.last() == '0' {
        lemma_trailing_zeros_bound(s.drop_last());
        assert forall|i: int| s.len() - trailing_zeros(s) <= i < s.len() implies #[trigger] s[i] == '0' by {
            if i < s.len() - 1 {
                assert(s[i] == s.drop_last()[i]);
            }
        }
        if trailing_zeros(s) < s.len() {
            assert(s[s.len() - trailing_zeros(s) - 1] == s.drop_last()[s.len() - trailing_zeros(s) - 1]);
        }
    }
}

/// Move the trailing zeros of a coefficient into its exponent
/// ([`normalized`]), failing when the exponent would overflow.
fn normalize_coefficient(coefficient: String, exponent: i64) -> (r: Result<(String, i64), TermError>)
    ensures
        coefficient@ == seq!['0'] ==> (r matches Ok(p) && p.0@ == coefficient@ && p.1 == 0),
        coefficient@ != seq!['0'] ==> (r is Ok <==> exponent + trailing_zeros(coefficient@) <= i64::MAX),
        r matches Ok(p) ==> (p.0@, p.1 as int) == normalized(coefficient@, exponent as int),
        r is Err ==> r == Err::<(String, i64), TermError>(TermError::InvalidAtom("precision-real exponent overflow")),
{
    let cs = crate::units::chars_of(coefficient.as_str());
    if cs.len() == 1 && cs[0] == '0' {
        proof {
            assert(cs@ =~= seq!['0']);
        }
        return Ok((coefficient, 0));
    }
    proof {
        if cs@ == seq!['0'] {
            assert(cs@[0] == '0');
        }
        lemma_trailing_zeros_bound(cs@);
    }
    let mut end = cs.len();
    let mut e = exponent;
    proof {
        assert(cs@.subrange(0, end as int) =~= cs@);
    }
    while end > 0 && cs[end - 1] == '0'
        invariant
            end <= cs@.len(),
            cs@ == coefficient@,
            coefficient@ != seq!['0'],
            trailing_zeros(cs@.subrange(0, end as int)) + (cs@.len() - end) == trailing_zeros(cs@),
            e == exponent + (cs@.len() - end),
        decreases end,
    {
        proof {
            let t = cs@.subrange(0, end as int);
            assert(t.drop_last() =~= cs@.subrange(0, end - 1));
            assert(t.last() == '0');
        }
        if e == i64::MAX {
            proof {
                let t = cs@.subrange(0, end as int);
                assert(trailing_zeros(t) >= 1);
            }
            return Err(TermError::InvalidAtom("precision-real exponent overflow"));
        }
        e = e + 1;
        end = end - 1;
    }
    proof {
        let t = cs@.subrange(0, end as int);
        if end > 0 {
            assert(t.last() == cs@[end - 1]);
        }
        assert(trailing_zeros(t) == 0);
    }
    let stripped = crate::units::string_of(&cs.as_slice()[0..end]);
    proof {
        assert(cs@.subrange(0, end as int) == coefficient@.subrange(0, coefficient@.len() - trailing_zeros(coefficient@)));
    }
    Ok((stripped, e))
}

impl View for PrecisionReal {
    type V = (Seq<char>, i64, u32);

    closed spec fn view(&self) -> (Seq<char>, i64, u32) {
        (self.significand@, self.exponent10, self.precision_bits)
    }
}

impl PrecisionReal {
    /// A canonical significand and exponent with a nonzero precision: the
    /// significand must be a canonical integer spelling, and its trailing
    /// zeros move into the exponent ([`normalized`]).
    pub fn new(significand: &str, exponent10: i64, precision_bits: u32) -> (r: Result<PrecisionReal, TermError>)
        ensures
            precision_bits == 0 ==> r == Err::<PrecisionReal, TermError>(TermError::InvalidAtom("precision must be nonzero")),
            precision_bits > 0 && !decimal_integer_syntax(significand@) ==> r == Err::<PrecisionReal, TermError>(
                TermError::InvalidAtom("invalid canonical integer"),
            ),
            precision_bits > 0 && decimal_integer_syntax(significand@) && !canonical_integer_spec(significand@) ==> r
                == Err::<PrecisionReal, TermError>(TermError::InvalidAtom("non-canonical integer spelling")),
            precision_bits > 0 && canonical_integer_spec(significand@) ==> (r is Ok <==> (significand@ == seq!['0']
                || exponent10 + trailing_zeros(significand@) <= i64::MAX)),
            precision_bits > 0 && canonical_integer_spec(significand@) && r is Err ==> r == Err::<PrecisionReal, TermError>(
                TermError::InvalidAtom("precision-real exponent overflow"),
            ),
            r matches Ok(p) ==> (p@.0, p@.1 as int) == normalized(significand@, exponent10 as int) && p@.2 == precision_bits,
    {
        if precision_bits == 0 {
            return Err(TermError::InvalidAtom("precision must be nonzero"));
        }
        let canonical = match canonical_integer(significand) {
            Ok(s) => s,
            Err(e) => {
                return Err(e);
            },
        };
        match normalize_coefficient(canonical, exponent10) {
            Ok((s, e)) => Ok(PrecisionReal { significand: s, exponent10: e, precision_bits }),
            Err(e) => Err(e),
        }
    }

    /// The fields as read from a wire, not yet checked for canonical form.
    pub(crate) fn from_wire(significand: String, exponent10: i64, precision_bits: u32) -> (r: PrecisionReal)
        ensures
            r@ == (significand@, exponent10, precision_bits),
    {
        PrecisionReal { significand, exponent10, precision_bits }
    }

    /// The canonical significand.
    pub fn significand(&self) -> (r: &str)
        ensures
            r@ == self@.0,
    {
        self.significand.as_str()
    }

    /// The decimal exponent.
    pub fn exponent10(&self) -> (r: i64)
        ensures
            r == self@.1,
    {
        self.exponent10
    }

    /// Do the two hold the same significand, exponent and precision?
    pub(crate) fn same_as(&self, other: &PrecisionReal) -> (r: bool)
        ensures
            r == (self@ == other@),
    {
        self.significand.eq(&other.significand) && self.exponent10 == other.exponent10 && self.precision_bits
            == other.precision_bits
    }

    /// The approximation precision in bits.
    pub fn precision_bits(&self) -> (r: u32)
        ensures
            r == self@.2,
    {
        self.precision_bits
    }
}


/// `10^k`.
pub open spec fn pow10(k: nat) -> nat
    decreases k,
{
    if k == 0 {
        1
    } else {
        10 * pow10((k - 1) as nat)
    }
}

/// `c` is an exponent marker.
pub open spec fn is_exponent_marker(c: char) -> bool {
    c == 'e' || c == 'E'
}

/// `c` is a decimal digit.
pub open spec fn is_decimal_digit(c: char) -> bool {
    '0' <= c <= '9'
}

/// Every character of `s` is a decimal digit.
pub open spec fn all_digits(s: Seq<char>) -> bool {
    forall|i: int| 0 <= i < s.len() ==> is_decimal_digit(#[trigger] s[i])
}

/// The index of the first exponent marker, `s.len()` when there is none.
pub open spec fn exponent_marker(s: Seq<char>) -> nat
    decreases s.len(),
{
    if s.len() == 0 {
        0
    } else if is_exponent_marker(s[0]) {
        0
    } else {
        1 + exponent_marker(s.drop_first())
    }
}

/// The index of the first `'.'`, `s.len()` when there is none.
pub open spec fn dot_position(s: Seq<char>) -> nat
    decreases s.len(),
{
    if s.len() == 0 {
        0
    } else if s[0] == '.' {
        0
    } else {
        1 + dot_position(s.drop_first())
    }
}

/// The parts of an exact decimal `[sign] whole [. fraction] [e exponent]`:
/// the mantissa, the exponent's text (when there is a marker), the whole
/// and fraction digits.
pub open spec fn mantissa_of(text: Seq<char>) -> Seq<char> {
    text.subrange(0, exponent_marker(text) as int)
}

/// The text after the exponent marker (empty without one).
pub open spec fn exponent_text(text: Seq<char>) -> Seq<char> {
    if exponent_marker(text) < text.len() {
        text.subrange(exponent_marker(text) as int + 1, text.len() as int)
    } else {
        Seq::empty()
    }
}

/// The digits before the point.
pub open spec fn whole_of(text: Seq<char>) -> Seq<char> {
    let u = crate::rational::unsigned_part(mantissa_of(text));
    u.subrange(0, dot_position(u) as int)
}

/// The characters after the point (empty without one).
pub open spec fn fraction_of(text: Seq<char>) -> Seq<char> {
    let u = crate::rational::unsigned_part(mantissa_of(text));
    if dot_position(u) < u.len() {
        u.subrange(dot_position(u) as int + 1, u.len() as int)
    } else {
        Seq::empty()
    }
}

/// The syntax of an exact decimal: nonempty, no NUL, at most one exponent
/// marker followed by an `i64` numeral, then an optionally signed mantissa
/// of a nonempty run of digits with at most one point followed by digits.
pub open spec fn exact_decimal_syntax(text: Seq<char>) -> bool {
    &&& decimal_text_ok(text)
    &&& decimal_exponent_ok(text)
    &&& whole_of(text).len() > 0
    &&& all_digits(whole_of(text))
    &&& dot_position(fraction_of(text)) == fraction_of(text).len()
    &&& all_digits(fraction_of(text))
}

/// Nonempty and free of NUL characters.
pub open spec fn decimal_text_ok(text: Seq<char>) -> bool {
    text.len() > 0 && forall|i: int| 0 <= i < text.len() ==> #[trigger] text[i] != '\0'
}

/// Without an exponent marker, or with exactly one followed by an `i64`
/// numeral.
pub open spec fn decimal_exponent_ok(text: Seq<char>) -> bool {
    exponent_marker(text) < text.len() ==> {
        &&& exponent_marker(exponent_text(text)) == exponent_text(text).len()
        &&& crate::units::numeral_value(exponent_text(text)) matches Some(v) && i64::MIN <= v <= i64::MAX
    }
}

/// The exponent an exact decimal carries (zero without a marker).
pub open spec fn exponent_value(text: Seq<char>) -> int {
    if exponent_marker(text) < text.len() {
        crate::units::numeral_value(exponent_text(text))->0
    } else {
        0
    }
}

/// The mantissa is negative.
pub open spec fn mantissa_negative(text: Seq<char>) -> bool {
    mantissa_of(text).len() > 0 && mantissa_of(text)[0] == '-'
}


/// The number of trailing zeros the parser moves into the scale: all of
/// them, but never the last digit.
pub open spec fn stripped_zeros(d: Seq<char>) -> nat {
    if trailing_zeros(d) < d.len() {
        trailing_zeros(d)
    } else if d.len() > 0 {
        (d.len() - 1) as nat
    } else {
        0
    }
}

/// The scale before stripping: fraction digits minus the exponent.
pub open spec fn raw_scale(text: Seq<char>) -> int {
    fraction_of(text).len() - exponent_value(text)
}

/// Every intermediate scale fits in an `i64`.
pub open spec fn scale_fits(text: Seq<char>) -> bool {
    let d = whole_of(text) + fraction_of(text);
    &&& fraction_of(text).len() <= i64::MAX
    &&& i64::MIN <= raw_scale(text) <= i64::MAX
    &&& raw_scale(text) - stripped_zeros(d) >= i64::MIN
}

/// The canonical coefficient and scale of an exact decimal: zero is `"0"`
/// with scale `0`; otherwise the coefficient is the canonical spelling of
/// a value `m` not divisible by ten (negated for a negative mantissa) and
/// `m · 10^k` is the value of all the digits, where `k` is the number of
/// trailing zeros moved into the scale.
pub open spec fn exact_decimal_result(text: Seq<char>, coefficient: Seq<char>, scale: int) -> bool {
    let d = whole_of(text) + fraction_of(text);
    let dv = decimal_digits_value(d);
    if dv == 0 {
        coefficient == seq!['0'] && scale == 0
    } else {
        let k = stripped_zeros(d);
        let m = magnitude(coefficient);
        &&& scale == raw_scale(text) - k
        &&& m % 10 != 0
        &&& m * pow10(k) == dv
        &&& coefficient == int_spelling(if mantissa_negative(text) { -m } else { m as int })
    }
}

/// The value of the digits of a spelled integer, after an optional minus
/// sign.
pub open spec fn magnitude(c: Seq<char>) -> nat {
    decimal_digits_value(if c.len() > 0 && c[0] == '-' { c.drop_first() } else { c })
}

proof fn lemma_exponent_marker_at(s: Seq<char>, i: int)
    requires
        0 <= i <= s.len(),
        forall|j: int| 0 <= j < i ==> !is_exponent_marker(#[trigger] s[j]),
        i == s.len() || is_exponent_marker(s[i]),
    ensures
        exponent_marker(s) == i,
    decreases i,
{
    if i > 0 {
        assert(!is_exponent_marker(s[0]));
        let t = s.drop_first();
        assert forall|j: int| 0 <= j < i - 1 implies !is_exponent_marker(#[trigger] t[j]) by {
            assert(t[j] == s[j + 1]);
        }
        if i < s.len() {
            assert(t[i - 1] == s[i]);
        }
        lemma_exponent_marker_at(t, i - 1);
    }
}

proof fn lemma_dot_at(s: Seq<char>, i: int)
    requires
        0 <= i <= s.len(),
        forall|j: int| 0 <= j < i ==> #[trigger] s[j] != '.',
        i == s.len() || s[i] == '.',
    ensures
        dot_position(s) == i,
    decreases i,
{
    if i > 0 {
        let t = s.drop_first();
        assert forall|j: int| 0 <= j < i - 1 implies #[trigger] t[j] != '.' by {
            assert(t[j] == s[j + 1]);
        }
        if i < s.len() {
            assert(t[i - 1] == s[i]);
        }
        lemma_dot_at(t, i - 1);
    }
}

proof fn lemma_trailing_zeros_all(s: Seq<char>)
    ensures
        trailing_zeros(s) <= s.len(),
        forall|i: int| s.len() - trailing_zeros(s) <= i < s.len() ==> #[trigger] s[i] == '0',
        trailing_zeros(s) < s.len() ==> s[s.len() - trailing_zeros(s) - 1] != '0',
{
    lemma_trailing_zeros_bound(s);
}

/// Trailing zeros scale the value by ten each.
proof fn lemma_value_strip(s: Seq<char>, k: nat)
    requires
        k <= s.len(),
        forall|i: int| s.len() - k <= i < s.len() ==> #[trigger] s[i] == '0',
    ensures
        decimal_digits_value(s) == decimal_digits_value(s.subrange(0, s.len() - k)) * pow10(k),
    decreases k,
{
    if k == 0 {
        assert(s.subrange(0, s.len() - k) =~= s);
        assert(pow10(0) == 1);
    } else {
        let t = s.drop_last();
        assert forall|i: int| t.len() - (k - 1) <= i < t.len() implies #[trigger] t[i] == '0' by {
            assert(t[i] == s[i]);
        }
        lemma_value_strip(t, (k - 1) as nat);
        assert(t.subrange(0, t.len() - (k - 1)) =~= s.subrange(0, s.len() - k));
        assert(s.last() == '0');
        let a = decimal_digits_value(s.subrange(0, s.len() - k));
        let p = pow10((k - 1) as nat);
        assert((s.last() as nat - '0' as nat) as nat == 0);
        assert(decimal_digits_value(s) == decimal_digits_value(t) * 10);
        assert(decimal_digits_value(t) == a * p);
        assert(pow10(k) == 10 * p);
        assert(decimal_digits_value(s) == a * pow10(k)) by (nonlinear_arith)
            requires
                decimal_digits_value(s) == decimal_digits_value(t) * 10,
                decimal_digits_value(t) == a * p,
                pow10(k) == 10 * p,
        ;
    }
}

/// Leading zeros do not change the value.
proof fn lemma_value_leading_zeros(s: Seq<char>, p: int)
    requires
        0 <= p <= s.len(),
        forall|i: int| 0 <= i < p ==> #[trigger] s[i] == '0',
    ensures
        decimal_digits_value(s) == decimal_digits_value(s.subrange(p, s.len() as int)),
    decreases s.len(),
{
    if s.len() == p {
        assert(s.subrange(p, s.len() as int) =~= Seq::<char>::empty());
        if s.len() > 0 {
            lemma_value_leading_zeros(s.drop_last(), p - 1);
            assert(s.drop_last().subrange(p - 1, s.len() - 1) =~= Seq::<char>::empty());
            assert(s.last() == '0');
        }
    } else {
        let t = s.drop_last();
        lemma_value_leading_zeros(t, p);
        let u = s.subrange(p, s.len() as int);
        assert(u.drop_last() =~= t.subrange(p, t.len() as int));
        assert(u.last() == s.last());
    }
}

/// A digit string without a leading zero is the spelling of its value, and
/// that value is positive.
proof fn lemma_spelling_of_value(t: Seq<char>)
    requires
        t.len() >= 1,
        all_digits(t),
        t[0] != '0',
    ensures
        decimal_digits_value(t) > 0,
        crate::rational::nat_spelling(decimal_digits_value(t)) == t,
    decreases t.len(),
{
    let v = decimal_digits_value(t);
    let d = (t.last() as nat - '0' as nat) as nat;
    assert(is_decimal_digit(t.last()));
    assert(d < 10);
    assert(crate::rational::digit_char(d) == t.last());
    if t.len() == 1 {
        assert(t.drop_last() =~= Seq::<char>::empty());
        assert(v == d);
        assert(d > 0);
        assert(seq![t.last()] =~= t);
    } else {
        let h = t.drop_last();
        assert(h[0] == t[0]);
        assert forall|i: int| 0 <= i < h.len() implies is_decimal_digit(#[trigger] h[i]) by {
            assert(h[i] == t[i]);
        }
        lemma_spelling_of_value(h);
        let hv = decimal_digits_value(h);
        assert(v == hv * 10 + d);
        assert(v >= 10);
        assert(v / 10 == hv && v % 10 == d) by (nonlinear_arith)
            requires
                v == hv * 10 + d,
                d < 10,
        ;
        assert(h.push(t.last()) =~= t);
    }
}

/// Whether some character of `cs` is NUL.
pub(crate) fn contains_nul(cs: &Vec<char>) -> (r: bool)
    ensures
        r == exists|i: int| 0 <= i < cs@.len() && #[trigger] cs@[i] == '\0',
{
    let mut i: usize = 0;
    while i < cs.len()
        invariant
            i <= cs@.len(),
            forall|j: int| 0 <= j < i ==> #[trigger] cs@[j] != '\0',
        decreases cs@.len() - i,
    {
        if cs[i] == '\0' {
            return true;
        }
        i = i + 1;
    }
    false
}

/// The index of the first exponent marker in `cs[lo..]`, from `lo`.
fn find_marker(cs: &Vec<char>, lo: usize) -> (r: usize)
    requires
        lo <= cs@.len(),
    ensures
        r == lo + exponent_marker(cs@.subrange(lo as int, cs@.len() as int)),
        lo <= r <= cs@.len(),
{
    let ghost s = cs@.subrange(lo as int, cs@.len() as int);
    let mut i: usize = lo;
    while i < cs.len() && !(cs[i] == 'e' || cs[i] == 'E')
        invariant
            lo <= i <= cs@.len(),
            forall|j: int| lo <= j < i ==> !is_exponent_marker(#[trigger] cs@[j]),
        decreases cs@.len() - i,
    {
        i = i + 1;
    }
    proof {
        assert forall|j: int| 0 <= j < i - lo implies !is_exponent_marker(#[trigger] s[j]) by {
            assert(s[j] == cs@[lo + j]);
        }
        if i < cs@.len() {
            assert(s[i - lo] == cs@[i as int]);
        }
        lemma_exponent_marker_at(s, i - lo);
    }
    i
}

/// The index of the first `'.'` in `cs[lo..hi]`, from `lo`.
fn find_dot(cs: &Vec<char>, lo: usize, hi: usize) -> (r: usize)
    requires
        lo <= hi <= cs@.len(),
    ensures
        r == lo + dot_position(cs@.subrange(lo as int, hi as int)),
        lo <= r <= hi,
{
    let ghost s = cs@.subrange(lo as int, hi as int);
    let mut i: usize = lo;
    while i < hi && cs[i] != '.'
        invariant
            lo <= i <= hi,
            hi <= cs@.len(),
            forall|j: int| lo <= j < i ==> #[trigger] cs@[j] != '.',
        decreases hi - i,
    {
        i = i + 1;
    }
    proof {
        assert forall|j: int| 0 <= j < i - lo implies #[trigger] s[j] != '.' by {
            assert(s[j] == cs@[lo + j]);
        }
        if i < hi {
            assert(s[i - lo] == cs@[i as int]);
        }
        lemma_dot_at(s, i - lo);
    }
    i
}

/// Whether `cs[lo..hi]` is all decimal digits.
fn digits_only(cs: &Vec<char>, lo: usize, hi: usize) -> (r: bool)
    requires
        lo <= hi <= cs@.len(),
    ensures
        r == all_digits(cs@.subrange(lo as int, hi as int)),
{
    let ghost s = cs@.subrange(lo as int, hi as int);
    let mut i: usize = lo;
    while i < hi
        invariant
            lo <= i <= hi,
            hi <= cs@.len(),
            s == cs@.subrange(lo as int, hi as int),
            forall|j: int| lo <= j < i ==> is_decimal_digit(#[trigger] cs@[j]),
        decreases hi - i,
    {
        if !('0' <= cs[i] && cs[i] <= '9') {
            proof {
                assert(s[i - lo] == cs@[i as int]);
            }
            return false;
        }
        i = i + 1;
    }
    proof {
        assert forall|j: int| 0 <= j < s.len() implies is_decimal_digit(#[trigger] s[j]) by {
            assert(s[j] == cs@[lo + j]);
        }
    }
    true
}

/// The pieces of an exact decimal: where the exponent marker is, the
/// exponent, the sign, and where the whole and fraction digits lie.
fn split_decimal(cs: &Vec<char>) -> (r: Result<(usize, i64, bool, usize, usize, usize), TermError>)
    ensures
        r is Ok <==> exact_decimal_syntax(cs@),
        r matches Ok(x) ==> {
            &&& x.0 == exponent_marker(cs@)
            &&& x.0 <= cs@.len()
            &&& x.1 == exponent_value(cs@)
            &&& x.2 == mantissa_negative(cs@)
            &&& x.3 <= x.4 <= x.0
            &&& x.5 <= x.0
            &&& whole_of(cs@) == cs@.subrange(x.3 as int, x.4 as int)
            &&& fraction_of(cs@) == cs@.subrange(x.5 as int, x.0 as int)
        },
        !decimal_text_ok(cs@) ==> r == Err::<(usize, i64, bool, usize, usize, usize), TermError>(
            TermError::InvalidAtom("invalid exact decimal"),
        ),
        decimal_text_ok(cs@) && !decimal_exponent_ok(cs@) ==> r == Err::<(usize, i64, bool, usize, usize, usize), TermError>(
            TermError::InvalidAtom("invalid exact decimal exponent"),
        ),
        decimal_text_ok(cs@) && decimal_exponent_ok(cs@) && !exact_decimal_syntax(cs@) ==> r == Err::<
            (usize, i64, bool, usize, usize, usize),
            TermError,
        >(TermError::InvalidAtom("invalid exact decimal")),
{
    let ghost t = cs@;
    let n = cs.len();
    if n == 0 || contains_nul(cs) {
        return Err(TermError::InvalidAtom("invalid exact decimal"));
    }
    let mk = find_marker(cs, 0);
    proof {
        assert(t.subrange(0, n as int) =~= t);
    }
    let mut exponent: i64 = 0;
    if mk < n {
        let second = find_marker(cs, mk + 1);
        proof {
            assert(exponent_text(t) == t.subrange(mk + 1, n as int));
        }
        if second < n {
            return Err(TermError::InvalidAtom("invalid exact decimal exponent"));
        }
        let etext = &cs.as_slice()[mk + 1..n];
        match crate::units::parse_i64(etext) {
            Some(v) => {
                exponent = v;
            },
            None => {
                return Err(TermError::InvalidAtom("invalid exact decimal exponent"));
            },
        }
    }
    let ghost m = mantissa_of(t);
    proof {
        assert(m == t.subrange(0, mk as int));
    }
    let negative = mk > 0 && cs[0] == '-';
    let start: usize = if mk > 0 && (cs[0] == '-' || cs[0] == '+') {
        1
    } else {
        0
    };
    let ghost u = crate::rational::unsigned_part(m);
    proof {
        if start == 1 {
            assert(u =~= t.subrange(1, mk as int));
        } else {
            assert(u =~= t.subrange(0, mk as int));
        }
    }
    let dp = find_dot(cs, start, mk);
    proof {
        assert(u == t.subrange(start as int, mk as int));
        assert(whole_of(t) =~= t.subrange(start as int, dp as int));
    }
    let fstart: usize = if dp < mk {
        dp + 1
    } else {
        mk
    };
    proof {
        assert(fraction_of(t) =~= t.subrange(fstart as int, mk as int));
    }
    let second_dot = find_dot(cs, fstart, mk);
    if second_dot < mk || dp == start || !digits_only(cs, start, dp) || !digits_only(cs, fstart, mk) {
        return Err(TermError::InvalidAtom("invalid exact decimal"));
    }
    Ok((mk, exponent, negative, start, dp, fstart))
}

/// Move trailing zeros of a digit string into the scale, keeping at least
/// one digit: [`stripped_zeros`] of them, each lowering the scale by one.
fn strip_zeros(digits: Vec<char>, scale0: i64) -> (r: Result<(Vec<char>, i64), TermError>)
    requires
        digits@.len() >= 1,
    ensures
        r is Ok <==> scale0 - stripped_zeros(digits@) >= i64::MIN,
        r is Err ==> r == Err::<(Vec<char>, i64), TermError>(TermError::InvalidAtom("exact decimal scale overflow")),
        r matches Ok(p) ==> p.0@ == digits@.subrange(0, digits@.len() - stripped_zeros(digits@)) && p.1 == scale0
            - stripped_zeros(digits@),
        r matches Ok(p) ==> p.0@.len() >= 1 && (p.0@.len() > 1 ==> p.0@.last() != '0'),
{
    let ghost d = digits@;
    proof {
        lemma_trailing_zeros_all(d);
        assert(d.subrange(0, d.len() as int) =~= d);
    }
    let mut cur = digits;
    let mut scale = scale0;
    let ghost mut k: nat = 0;
    while cur.len() > 1 && cur[cur.len() - 1] == '0'
        invariant
            d == digits@,
            cur@ == d.subrange(0, d.len() - k),
            k < d.len(),
            trailing_zeros(cur@) + k == trailing_zeros(d),
            scale == scale0 - k,
            trailing_zeros(d) <= d.len(),
        decreases cur@.len(),
    {
        proof {
            let cs = cur@;
            assert(cs.drop_last() =~= d.subrange(0, d.len() - k - 1));
            assert(cs.last() == '0');
            lemma_trailing_zeros_all(cs);
            assert(trailing_zeros(cs) == 1 + trailing_zeros(cs.drop_last()));
        }
        if scale == i64::MIN {
            proof {
                assert(stripped_zeros(d) >= k + 1);
                assert(scale0 - stripped_zeros(d) < i64::MIN);
                assert(d == digits@);
            }
            return Err(TermError::InvalidAtom("exact decimal scale overflow"));
        }
        scale = scale - 1;
        cur.pop();
        proof {
            k = k + 1;
        }
    }
    proof {
        lemma_trailing_zeros_all(cur@);
        if cur@.len() > 1 {
            assert(trailing_zeros(cur@) == 0);
        } else if cur@.last() == '0' {
            assert(cur@.drop_last() =~= Seq::<char>::empty());
            assert(trailing_zeros(cur@) == 1);
        } else {
            assert(trailing_zeros(cur@) == 0);
        }
        assert(k == stripped_zeros(d));
    }
    Ok((cur, scale))
}

/// Parse an exact decimal `[sign] whole [. fraction] [e exponent]` into its
/// canonical coefficient and scale ([`exact_decimal_result`]).
fn parse_decimal(text: &str) -> (r: Result<(String, i64), TermError>)
    ensures
        r is Ok <==> exact_decimal_syntax(text@) && scale_fits(text@),
        !decimal_text_ok(text@) ==> r == Err::<(String, i64), TermError>(TermError::InvalidAtom("invalid exact decimal")),
        decimal_text_ok(text@) && !decimal_exponent_ok(text@) ==> r == Err::<(String, i64), TermError>(
            TermError::InvalidAtom("invalid exact decimal exponent"),
        ),
        decimal_text_ok(text@) && decimal_exponent_ok(text@) && !exact_decimal_syntax(text@) ==> r == Err::<
            (String, i64),
            TermError,
        >(TermError::InvalidAtom("invalid exact decimal")),
        exact_decimal_syntax(text@) && !scale_fits(text@) ==> r == Err::<(String, i64), TermError>(
            TermError::InvalidAtom("exact decimal scale overflow"),
        ),
        r matches Ok(p) ==> exact_decimal_result(text@, p.0@, p.1 as int),
{
    let cs = crate::units::chars_of(text);
    let ghost t = text@;
    let (mk, exponent, negative, start, dp, fstart) = match split_decimal(&cs) {
        Ok(x) => x,
        Err(e) => {
            return Err(e);
        },
    };
    let flen = mk - fstart;
    proof {
        assert(fraction_of(t).len() == flen);
    }
    if flen as u64 > i64::MAX as u64 {
        return Err(TermError::InvalidAtom("exact decimal scale overflow"));
    }
    let scale0: i64 = match (flen as i64).checked_sub(exponent) {
        Some(x) => x,
        None => {
            return Err(TermError::InvalidAtom("exact decimal scale overflow"));
        },
    };
    let mut digits: Vec<char> = Vec::new();
    let mut y: usize = start;
    while y < dp
        invariant
            cs@ == t,
            start <= y <= dp,
            dp <= cs@.len(),
            digits@ == t.subrange(start as int, y as int),
        decreases dp - y,
    {
        digits.push(cs[y]);
        y = y + 1;
        proof {
            assert(digits@ =~= t.subrange(start as int, y as int));
        }
    }
    let mut y2: usize = fstart;
    while y2 < mk
        invariant
            cs@ == t,
            fstart <= y2 <= mk,
            mk <= cs@.len(),
            digits@ == whole_of(t) + t.subrange(fstart as int, y2 as int),
        decreases mk - y2,
    {
        digits.push(cs[y2]);
        y2 = y2 + 1;
        proof {
            assert(digits@ =~= whole_of(t) + t.subrange(fstart as int, y2 as int));
        }
    }
    let ghost d = digits@;
    proof {
        assert(d =~= whole_of(t) + fraction_of(t));
    }
    let (stripped_v, scale) = match strip_zeros(digits, scale0) {
        Ok(x) => x,
        Err(e) => {
            return Err(e);
        },
    };
    let ghost k = stripped_zeros(d);
    let ghost stripped = stripped_v@;
    proof {
        lemma_trailing_zeros_all(d);
        assert forall|i: int| d.len() - k <= i < d.len() implies #[trigger] d[i] == '0' by {
        }
        lemma_value_strip(d, k);
        assert(stripped == d.subrange(0, d.len() - k));
        lemma_pow10_positive(k);
    }
    let digits = stripped_v;
    let mut p: usize = 0;
    while p < digits.len() && digits[p] == '0'
        invariant
            digits@ == stripped,
            p <= stripped.len(),
            forall|i: int| 0 <= i < p ==> #[trigger] stripped[i] == '0',
        decreases stripped.len() - p,
    {
        p = p + 1;
    }
    proof {
        lemma_value_leading_zeros(stripped, p as int);
    }
    if p == digits.len() {
        proof {
            assert(stripped.subrange(p as int, stripped.len() as int) =~= Seq::<char>::empty());
            assert(decimal_digits_value(Seq::<char>::empty()) == 0);
            assert(decimal_digits_value(d) == 0) by (nonlinear_arith)
                requires
                    decimal_digits_value(d) == decimal_digits_value(stripped) * pow10(k),
                    decimal_digits_value(stripped) == 0,
            ;
            reveal_strlit("0");
            assert("0"@ =~= seq!['0']);
        }
        return Ok(("0".to_owned(), 0));
    }
    let mut out: Vec<char> = Vec::new();
    if negative {
        out.push('-');
    }
    let ghost prefix = out@;
    let mut x: usize = p;
    while x < digits.len()
        invariant
            digits@ == stripped,
            p <= x <= stripped.len(),
            out@ == prefix + stripped.subrange(p as int, x as int),
        decreases stripped.len() - x,
    {
        out.push(digits[x]);
        x = x + 1;
        proof {
            assert(out@ =~= prefix + stripped.subrange(p as int, x as int));
        }
    }
    proof {
        lemma_coefficient_spelling(t, d, stripped, p as int, k, negative, prefix, out@);
    }
    let coefficient = crate::units::string_of(out.as_slice());
    Ok((coefficient, scale))
}

/// The assembled coefficient is the canonical spelling of the stripped
/// digits' value, which is not divisible by ten.
proof fn lemma_coefficient_spelling(
    t: Seq<char>,
    d: Seq<char>,
    stripped: Seq<char>,
    p: int,
    k: nat,
    negative: bool,
    prefix: Seq<char>,
    out: Seq<char>,
)
    requires
        exact_decimal_syntax(t),
        d == whole_of(t) + fraction_of(t),
        k == stripped_zeros(d),
        stripped == d.subrange(0, d.len() - k),
        stripped.len() >= 1,
        stripped.len() > 1 ==> stripped.last() != '0',
        0 <= p < stripped.len(),
        forall|i: int| 0 <= i < p ==> #[trigger] stripped[i] == '0',
        stripped[p] != '0',
        decimal_digits_value(d) == decimal_digits_value(stripped) * pow10(k),
        decimal_digits_value(stripped) == decimal_digits_value(stripped.subrange(p, stripped.len() as int)),
        pow10(k) >= 1,
        negative == mantissa_negative(t),
        prefix == (if negative { seq!['-'] } else { Seq::<char>::empty() }),
        out == prefix + stripped.subrange(p, stripped.len() as int),
    ensures
        decimal_digits_value(d) != 0,
        exact_decimal_result(t, out, raw_scale(t) - k),
{
    let tail = stripped.subrange(p, stripped.len() as int);
    assert(tail[0] == stripped[p]);
    assert forall|i: int| 0 <= i < tail.len() implies is_decimal_digit(#[trigger] tail[i]) by {
        assert(tail[i] == d[p + i]);
        let wl = whole_of(t).len();
        if p + i < wl {
            assert(d[p + i] == whole_of(t)[p + i]);
        } else {
            assert(d[p + i] == fraction_of(t)[p + i - wl]);
        }
    }
    lemma_spelling_of_value(tail);
    let mv = decimal_digits_value(tail);
    assert(tail.last() == stripped.last());
    assert(tail.last() != '0');
    let dl = (tail.last() as nat - '0' as nat) as nat;
    assert(is_decimal_digit(tail.last()));
    if tail.len() > 1 {
        assert(mv == decimal_digits_value(tail.drop_last()) * 10 + dl);
        assert(mv % 10 == dl) by (nonlinear_arith)
            requires
                mv == decimal_digits_value(tail.drop_last()) * 10 + dl,
                dl < 10,
        ;
    } else {
        assert(tail.drop_last() =~= Seq::<char>::empty());
        assert(decimal_digits_value(Seq::<char>::empty()) == 0);
        assert(mv == decimal_digits_value(tail.drop_last()) * 10 + dl);
        assert(mv == dl);
    }
    assert(mv % 10 != 0);
    assert(decimal_digits_value(d) == mv * pow10(k));
    assert(decimal_digits_value(d) != 0) by (nonlinear_arith)
        requires
            decimal_digits_value(d) == mv * pow10(k),
            mv > 0,
            pow10(k) >= 1,
    ;
    if negative {
        assert(out =~= seq!['-'] + crate::rational::nat_spelling(mv));
        assert(out.drop_first() =~= tail);
    } else {
        assert(out =~= crate::rational::nat_spelling(mv));
        assert(out =~= tail);
        assert(is_decimal_digit(tail[0]));
    }
    assert(magnitude(out) == mv);
    assert(out == int_spelling(if negative { -mv } else { mv as int }));
}

/// `10^k >= 1`.
proof fn lemma_pow10_positive(k: nat)
    ensures
        pow10(k) >= 1,
    decreases k,
{
    if k > 0 {
        lemma_pow10_positive((k - 1) as nat);
    }
}

impl View for ExactDecimal {
    type V = (Seq<char>, i64);

    closed spec fn view(&self) -> (Seq<char>, i64) {
        (self.coefficient@, self.scale)
    }
}

impl ExactDecimal {
    /// Parse an exact decimal into its canonical coefficient and scale
    /// ([`exact_decimal_result`]); an error for malformed text or a scale
    /// that does not fit in an `i64`.
    pub fn parse(text: &str) -> (r: Result<ExactDecimal, TermError>)
        ensures
            r is Ok <==> exact_decimal_syntax(text@) && scale_fits(text@),
            !decimal_text_ok(text@) ==> r == Err::<ExactDecimal, TermError>(TermError::InvalidAtom("invalid exact decimal")),
            decimal_text_ok(text@) && !decimal_exponent_ok(text@) ==> r == Err::<ExactDecimal, TermError>(
                TermError::InvalidAtom("invalid exact decimal exponent"),
            ),
            decimal_text_ok(text@) && decimal_exponent_ok(text@) && !exact_decimal_syntax(text@) ==> r == Err::<
                ExactDecimal,
                TermError,
            >(TermError::InvalidAtom("invalid exact decimal")),
            exact_decimal_syntax(text@) && !scale_fits(text@) ==> r == Err::<ExactDecimal, TermError>(
                TermError::InvalidAtom("exact decimal scale overflow"),
            ),
            r matches Ok(x) ==> exact_decimal_result(text@, x@.0, x@.1 as int),
    {
        match parse_decimal(text) {
            Ok((coefficient, scale)) => Ok(ExactDecimal { coefficient, scale }),
            Err(e) => Err(e),
        }
    }

    /// The fields as read from a wire, not yet checked for canonical form.
    pub(crate) fn from_wire(coefficient: String, scale: i64) -> (r: ExactDecimal)
        ensures
            r@ == (coefficient@, scale),
    {
        ExactDecimal { coefficient, scale }
    }

    /// The canonical coefficient.
    pub fn coefficient(&self) -> (r: &str)
        ensures
            r@ == self@.0,
    {
        self.coefficient.as_str()
    }

    /// The scale: the value is `coefficient · 10^-scale`.
    pub fn scale(&self) -> (r: i64)
        ensures
            r == self@.1,
    {
        self.scale
    }
}

/// Two symbol names are the same text.
pub open spec fn symbol_same(a: SymbolName, b: SymbolName) -> bool {
    a.namespace@ == b.namespace@ && a.name@ == b.name@
}

/// Two collection kinds are the same (arrays: the same shape).
pub open spec fn kind_same(a: CollectionKind, b: CollectionKind) -> bool {
    match (a, b) {
        (CollectionKind::Tuple, CollectionKind::Tuple) => true,
        (CollectionKind::List, CollectionKind::List) => true,
        (CollectionKind::Array { shape: x }, CollectionKind::Array { shape: y }) => x@ == y@,
        _ => false,
    }
}

/// Two atoms are structurally the same: the same variant holding the same
/// value.
pub open spec fn atom_same(a: Atom, b: Atom) -> bool {
    match (a, b) {
        (Atom::Integer(x), Atom::Integer(y)) => x@ == y@,
        (Atom::Rational(x), Atom::Rational(y)) => x@ == y@,
        (Atom::ExactDecimal(x), Atom::ExactDecimal(y)) => x@ == y@,
        (Atom::ExactIeee754Bits(x), Atom::ExactIeee754Bits(y)) => x == y,
        (Atom::MachineFloatBits(x), Atom::MachineFloatBits(y)) => x == y,
        (Atom::PrecisionReal(x), Atom::PrecisionReal(y)) => x@ == y@,
        (Atom::String(x), Atom::String(y)) => x@ == y@,
        (Atom::Bytes(x), Atom::Bytes(y)) => x@ == y@,
        (Atom::Symbol(x), Atom::Symbol(y)) => symbol_same(x, y),
        (Atom::Boolean(x), Atom::Boolean(y)) => x == y,
        (Atom::Constant(x), Atom::Constant(y)) => x == y,
        (Atom::BoundVariable(x), Atom::BoundVariable(y)) => x == y,
        _ => false,
    }
}

/// Two nodes are structurally the same: the same variant with the same
/// operator or kind and the same children in the same order.
pub open spec fn node_same(a: TermNode, b: TermNode) -> bool {
    match (a, b) {
        (TermNode::Atom(x), TermNode::Atom(y)) => atom_same(x, y),
        (TermNode::Apply { head: h1, arguments: a1 }, TermNode::Apply { head: h2, arguments: a2 }) => h1 == h2
            && a1@ == a2@,
        (
            TermNode::Relation { operator: o1, left: l1, right: r1 },
            TermNode::Relation { operator: o2, left: l2, right: r2 },
        ) => o1 == o2 && l1 == l2 && r1 == r2,
        (TermNode::Boolean { operator: o1, arguments: a1 }, TermNode::Boolean { operator: o2, arguments: a2 }) => o1
            == o2 && a1@ == a2@,
        (
            TermNode::Condition { expression: e1, condition: c1 },
            TermNode::Condition { expression: e2, condition: c2 },
        ) => e1 == e2 && c1 == c2,
        (TermNode::Piecewise { cases: c1, otherwise: o1 }, TermNode::Piecewise { cases: c2, otherwise: o2 }) => c1@
            == c2@ && o1 == o2,
        (TermNode::Collection { kind: k1, elements: e1 }, TermNode::Collection { kind: k2, elements: e2 }) =>
            kind_same(k1, k2) && e1@ == e2@,
        (TermNode::OrderedMap { entries: e1 }, TermNode::OrderedMap { entries: e2 }) => e1@ == e2@,
        (TermNode::Index { target: t1, indices: i1 }, TermNode::Index { target: t2, indices: i2 }) => t1 == t2 && i1@
            == i2@,
        (
            TermNode::Slice { target: t1, start: a1, end: b1, step: c1 },
            TermNode::Slice { target: t2, start: a2, end: b2, step: c2 },
        ) => t1 == t2 && a1 == a2 && b1 == b2 && c1 == c2,
        (
            TermNode::Rule { kind: k1, pattern: p1, replacement: r1, condition: c1 },
            TermNode::Rule { kind: k2, pattern: p2, replacement: r2, condition: c2 },
        ) => k1 == k2 && p1 == p2 && r1 == r2 && c1 == c2,
        (
            TermNode::Binder { kind: k1, variable_count: v1, bounds: b1, body: d1 },
            TermNode::Binder { kind: k2, variable_count: v2, bounds: b2, body: d2 },
        ) => k1 == k2 && v1 == v2 && b1@ == b2@ && d1 == d2,
        (TermNode::Held { expression: e1 }, TermNode::Held { expression: e2 }) => e1 == e2,
        _ => false,
    }
}

fn copy_ids(v: &Vec<TermId>) -> (r: Vec<TermId>)
    ensures
        r@ == v@,
{
    let mut r: Vec<TermId> = Vec::new();
    let mut i: usize = 0;
    while i < v.len()
        invariant
            i <= v@.len(),
            r@ == v@.subrange(0, i as int),
        decreases v@.len() - i,
    {
        r.push(v[i]);
        i = i + 1;
        proof {
            assert(r@ =~= v@.subrange(0, i as int));
        }
    }
    proof {
        assert(r@ =~= v@);
    }
    r
}

fn copy_seq<T: Copy>(v: &Vec<T>) -> (r: Vec<T>)
    ensures
        r@ == v@,
{
    let mut r: Vec<T> = Vec::new();
    let mut i: usize = 0;
    while i < v.len()
        invariant
            i <= v@.len(),
            r@ == v@.subrange(0, i as int),
        decreases v@.len() - i,
    {
        r.push(v[i]);
        i = i + 1;
        proof {
            assert(r@ =~= v@.subrange(0, i as int));
        }
    }
    proof {
        assert(r@ =~= v@);
    }
    r
}

/// Are two sequences of handles equal, item by item?
pub(crate) fn ids_eq(a: &Vec<TermId>, b: &Vec<TermId>) -> (r: bool)
    ensures
        r == (a@ == b@),
{
    if a.len() != b.len() {
        return false;
    }
    let mut i: usize = 0;
    while i < a.len()
        invariant
            i <= a@.len(),
            a@.len() == b@.len(),
            forall|j: int| 0 <= j < i ==> a@[j] == b@[j],
        decreases a@.len() - i,
    {
        if a[i] != b[i] {
            return false;
        }
        i = i + 1;
    }
    proof {
        assert(a@ =~= b@);
    }
    true
}

/// Are two sequences of piecewise cases equal, item by item?
pub(crate) fn cases_eq(a: &Vec<PiecewiseCase>, b: &Vec<PiecewiseCase>) -> (r: bool)
    ensures
        r == (a@ == b@),
{
    if a.len() != b.len() {
        return false;
    }
    let mut i: usize = 0;
    while i < a.len()
        invariant
            i <= a@.len(),
            a@.len() == b@.len(),
            forall|j: int| 0 <= j < i ==> a@[j] == b@[j],
        decreases a@.len() - i,
    {
        if a[i] != b[i] {
            return false;
        }
        i = i + 1;
    }
    proof {
        assert(a@ =~= b@);
    }
    true
}

/// Are two sequences of entries equal, item by item?
pub(crate) fn pairs_eq(a: &Vec<(TermId, TermId)>, b: &Vec<(TermId, TermId)>) -> (r: bool)
    ensures
        r == (a@ == b@),
{
    if a.len() != b.len() {
        return false;
    }
    let mut i: usize = 0;
    while i < a.len()
        invariant
            i <= a@.len(),
            a@.len() == b@.len(),
            forall|j: int| 0 <= j < i ==> a@[j] == b@[j],
        decreases a@.len() - i,
    {
        if a[i].0 != b[i].0 || a[i].1 != b[i].1 {
            return false;
        }
        i = i + 1;
    }
    proof {
        assert(a@ =~= b@);
    }
    true
}

/// Are two sequences of extents equal, item by item?
pub(crate) fn extents_eq(a: &Vec<usize>, b: &Vec<usize>) -> (r: bool)
    ensures
        r == (a@ == b@),
{
    if a.len() != b.len() {
        return false;
    }
    let mut i: usize = 0;
    while i < a.len()
        invariant
            i <= a@.len(),
            a@.len() == b@.len(),
            forall|j: int| 0 <= j < i ==> a@[j] == b@[j],
        decreases a@.len() - i,
    {
        if a[i] != b[i] {
            return false;
        }
        i = i + 1;
    }
    proof {
        assert(a@ =~= b@);
    }
    true
}

/// Are two sequences of bytes equal, item by item?
pub(crate) fn bytes_eq(a: &Vec<u8>, b: &Vec<u8>) -> (r: bool)
    ensures
        r == (a@ == b@),
{
    if a.len() != b.len() {
        return false;
    }
    let mut i: usize = 0;
    while i < a.len()
        invariant
            i <= a@.len(),
            a@.len() == b@.len(),
            forall|j: int| 0 <= j < i ==> a@[j] == b@[j],
        decreases a@.len() - i,
    {
        if a[i] != b[i] {
            return false;
        }
        i = i + 1;
    }
    proof {
        assert(a@ =~= b@);
    }
    true
}

impl Clone for SymbolName {
    fn clone(&self) -> (r: Self)
        ensures
            symbol_same(r, *self),
    {
        SymbolName { namespace: self.namespace.clone(), name: self.name.clone() }
    }
}

impl Clone for ExactDecimal {
    fn clone(&self) -> (r: Self)
        ensures
            r@ == self@,
    {
        ExactDecimal { coefficient: self.coefficient.clone(), scale: self.scale }
    }
}

impl Clone for PrecisionReal {
    fn clone(&self) -> (r: Self)
        ensures
            r@ == self@,
    {
        PrecisionReal {
            significand: self.significand.clone(),
            exponent10: self.exponent10,
            precision_bits: self.precision_bits,
        }
    }
}

impl Clone for CollectionKind {
    fn clone(&self) -> (r: Self)
        ensures
            kind_same(r, *self),
    {
        match self {
            CollectionKind::Tuple => CollectionKind::Tuple,
            CollectionKind::List => CollectionKind::List,
            CollectionKind::Array { shape } => CollectionKind::Array { shape: copy_seq(shape) },
        }
    }
}

impl Clone for Atom {
    fn clone(&self) -> (r: Self)
        ensures
            atom_same(r, *self),
    {
        match self {
            Atom::Integer(x) => Atom::Integer(x.clone()),
            Atom::Rational(x) => Atom::Rational(x.clone()),
            Atom::ExactDecimal(x) => Atom::ExactDecimal(x.clone()),
            Atom::ExactIeee754Bits(x) => Atom::ExactIeee754Bits(*x),
            Atom::MachineFloatBits(x) => Atom::MachineFloatBits(*x),
            Atom::PrecisionReal(x) => Atom::PrecisionReal(x.clone()),
            Atom::String(x) => Atom::String(x.clone()),
            Atom::Bytes(x) => Atom::Bytes(copy_seq(x)),
            Atom::Symbol(x) => Atom::Symbol(x.clone()),
            Atom::Boolean(x) => Atom::Boolean(*x),
            Atom::Constant(x) => Atom::Constant(*x),
            Atom::BoundVariable(x) => Atom::BoundVariable(*x),
        }
    }
}

impl Clone for TermNode {
    fn clone(&self) -> (r: Self)
        ensures
            node_same(r, *self),
    {
        match self {
            TermNode::Atom(a) => TermNode::Atom(a.clone()),
            TermNode::Apply { head, arguments } => TermNode::Apply { head: *head, arguments: copy_ids(arguments) },
            TermNode::Relation { operator, left, right } => TermNode::Relation {
                operator: *operator,
                left: *left,
                right: *right,
            },
            TermNode::Boolean { operator, arguments } => TermNode::Boolean {
                operator: *operator,
                arguments: copy_ids(arguments),
            },
            TermNode::Condition { expression, condition } => TermNode::Condition {
                expression: *expression,
                condition: *condition,
            },
            TermNode::Piecewise { cases, otherwise } => TermNode::Piecewise {
                cases: copy_seq(cases),
                otherwise: *otherwise,
            },
            TermNode::Collection { kind, elements } => TermNode::Collection {
                kind: kind.clone(),
                elements: copy_ids(elements),
            },
            TermNode::OrderedMap { entries } => TermNode::OrderedMap { entries: copy_seq(entries) },
            TermNode::Index { target, indices } => TermNode::Index { target: *target, indices: copy_ids(indices) },
            TermNode::Slice { target, start, end, step } => TermNode::Slice {
                target: *target,
                start: *start,
                end: *end,
                step: *step,
            },
            TermNode::Rule { kind, pattern, replacement, condition } => TermNode::Rule {
                kind: *kind,
                pattern: *pattern,
                replacement: *replacement,
                condition: *condition,
            },
            TermNode::Binder { kind, variable_count, bounds, body } => TermNode::Binder {
                kind: *kind,
                variable_count: *variable_count,
                bounds: copy_ids(bounds),
                body: *body,
            },
            TermNode::Held { expression } => TermNode::Held { expression: *expression },
        }
    }
}


fn opt_eq(a: Option<TermId>, b: Option<TermId>) -> (r: bool)
    ensures
        r == (a == b),
{
    match (a, b) {
        (Some(x), Some(y)) => x == y,
        (None, None) => true,
        _ => false,
    }
}

/// Are two atoms structurally the same?
pub(crate) fn atom_eq(a: &Atom, b: &Atom) -> (r: bool)
    ensures
        r == atom_same(*a, *b),
{
    match (a, b) {
        (Atom::Integer(x), Atom::Integer(y)) => x.eq(y),
        (Atom::Rational(x), Atom::Rational(y)) => x.eq(y),
        (Atom::ExactDecimal(x), Atom::ExactDecimal(y)) => x.coefficient.eq(&y.coefficient) && x.scale == y.scale,
        (Atom::ExactIeee754Bits(x), Atom::ExactIeee754Bits(y)) => x == y,
        (Atom::MachineFloatBits(x), Atom::MachineFloatBits(y)) => x == y,
        (Atom::PrecisionReal(x), Atom::PrecisionReal(y)) => x.significand.eq(&y.significand) && x.exponent10
            == y.exponent10 && x.precision_bits == y.precision_bits,
        (Atom::String(x), Atom::String(y)) => x.eq(y),
        (Atom::Bytes(x), Atom::Bytes(y)) => bytes_eq(x, y),
        (Atom::Symbol(x), Atom::Symbol(y)) => x.namespace.eq(&y.namespace) && x.name.eq(&y.name),
        (Atom::Boolean(x), Atom::Boolean(y)) => x == y,
        (Atom::Constant(x), Atom::Constant(y)) => x == y,
        (Atom::BoundVariable(x), Atom::BoundVariable(y)) => x == y,
        _ => false,
    }
}

/// Are two nodes structurally the same?
pub(crate) fn node_eq(a: &TermNode, b: &TermNode) -> (r: bool)
    ensures
        r == node_same(*a, *b),
{
    match (a, b) {
        (TermNode::Atom(x), TermNode::Atom(y)) => atom_eq(x, y),
        (TermNode::Apply { head: h1, arguments: a1 }, TermNode::Apply { head: h2, arguments: a2 }) => *h1 == *h2
            && ids_eq(a1, a2),
        (
            TermNode::Relation { operator: o1, left: l1, right: r1 },
            TermNode::Relation { operator: o2, left: l2, right: r2 },
        ) => *o1 == *o2 && *l1 == *l2 && *r1 == *r2,
        (TermNode::Boolean { operator: o1, arguments: a1 }, TermNode::Boolean { operator: o2, arguments: a2 }) =>
            *o1 == *o2 && ids_eq(a1, a2),
        (
            TermNode::Condition { expression: e1, condition: c1 },
            TermNode::Condition { expression: e2, condition: c2 },
        ) => *e1 == *e2 && *c1 == *c2,
        (TermNode::Piecewise { cases: c1, otherwise: o1 }, TermNode::Piecewise { cases: c2, otherwise: o2 }) =>
            cases_eq(c1, c2) && opt_eq(*o1, *o2),
        (TermNode::Collection { kind: k1, elements: e1 }, TermNode::Collection { kind: k2, elements: e2 }) => {
            let same_kind = match (k1, k2) {
                (CollectionKind::Tuple, CollectionKind::Tuple) => true,
                (CollectionKind::List, CollectionKind::List) => true,
                (CollectionKind::Array { shape: x }, CollectionKind::Array { shape: y }) => extents_eq(x, y),
                _ => false,
            };
            same_kind && ids_eq(e1, e2)
        },
        (TermNode::OrderedMap { entries: e1 }, TermNode::OrderedMap { entries: e2 }) => pairs_eq(e1, e2),
        (TermNode::Index { target: t1, indices: i1 }, TermNode::Index { target: t2, indices: i2 }) => *t1 == *t2
            && ids_eq(i1, i2),
        (
            TermNode::Slice { target: t1, start: a1, end: b1, step: c1 },
            TermNode::Slice { target: t2, start: a2, end: b2, step: c2 },
        ) => *t1 == *t2 && opt_eq(*a1, *a2) && opt_eq(*b1, *b2) && opt_eq(*c1, *c2),
        (
            TermNode::Rule { kind: k1, pattern: p1, replacement: r1, condition: c1 },
            TermNode::Rule { kind: k2, pattern: p2, replacement: r2, condition: c2 },
        ) => *k1 == *k2 && *p1 == *p2 && *r1 == *r2 && opt_eq(*c1, *c2),
        (
            TermNode::Binder { kind: k1, variable_count: v1, bounds: b1, body: d1 },
            TermNode::Binder { kind: k2, variable_count: v2, bounds: b2, body: d2 },
        ) => *k1 == *k2 && *v1 == *v2 && ids_eq(b1, b2) && *d1 == *d2,
        (TermNode::Held { expression: e1 }, TermNode::Held { expression: e2 }) => *e1 == *e2,
        _ => false,
    }
}

} // verus!
