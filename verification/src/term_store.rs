//! The hash-consed term store: validation of nodes and atoms, interning,
//! deterministic child-first traversal, the canonical wire form and its
//! digest, import between stores, and decoding of canonical wires.
use vstd::prelude::*;
use crate::term::{
    TermId, SymbolId, TermDigest, TermBudget, SymbolName, SymbolicConstant, RelationOperator, BooleanOperator,
    CollectionKind, RuleKind, BinderKind, PiecewiseCase, ExactDecimal, PrecisionReal, Atom, TermNode, StoreMetrics,
    TermError, node_same, atom_same, symbol_same, kind_same, canonical_integer, canonical_integer_spec, trailing_zeros, normalized,
};
use crate::rational::{Rational, decimal_integer_syntax, int_spelling, integer_spelling};
use crate::units::unicode_whitespace;
use crate::receipt::{blake3_hash, blake3_of};
use vstd::utf8::encode_utf8;
use crate::term_wire::{exceeded, node_wire, varint_bytes, indexed, listed, node_bytes, push_bytes, push_varint};

verus! {

/// The handle, if any, as a one-element sequence.
pub open spec fn opt_seq(o: Option<TermId>) -> Seq<TermId> {
    match o {
        Some(t) => seq![t],
        None => seq![],
    }
}

/// The values and conditions of piecewise cases, interleaved.
pub open spec fn case_children(cases: Seq<PiecewiseCase>) -> Seq<TermId> {
    Seq::new(2 * cases.len(), |i: int| if i % 2 == 0 { cases[i / 2].value } else { cases[i / 2].condition })
}

/// The keys and values of map entries, interleaved.
pub open spec fn entry_children(entries: Seq<(TermId, TermId)>) -> Seq<TermId> {
    Seq::new(2 * entries.len(), |i: int| if i % 2 == 0 { entries[i / 2].0 } else { entries[i / 2].1 })
}

/// The children of a node, in their structural order.
pub open spec fn children_of(node: TermNode) -> Seq<TermId> {
    match node {
        TermNode::Atom(_) => seq![],
        TermNode::Apply { head, arguments } => seq![head] + arguments@,
        TermNode::Relation { left, right, .. } => seq![left, right],
        TermNode::Boolean { arguments, .. } => arguments@,
        TermNode::Condition { expression, condition } => seq![expression, condition],
        TermNode::Piecewise { cases, otherwise } => case_children(cases@) + opt_seq(otherwise),
        TermNode::Collection { elements, .. } => elements@,
        TermNode::OrderedMap { entries } => entry_children(entries@),
        TermNode::Index { target, indices } => seq![target] + indices@,
        TermNode::Slice { target, start, end, step } => seq![target] + opt_seq(start) + opt_seq(end) + opt_seq(
            step,
        ),
        TermNode::Rule { pattern, replacement, condition, .. } => seq![pattern, replacement] + opt_seq(condition),
        TermNode::Binder { bounds, body, .. } => bounds@.push(body),
        TermNode::Held { expression } => seq![expression],
    }
}

proof fn lemma_node_same_children(a: TermNode, b: TermNode)
    requires
        node_same(a, b),
    ensures
        children_of(a) == children_of(b),
{
}

fn push_opt(r: &mut Vec<TermId>, o: Option<TermId>)
    ensures
        final(r)@ == old(r)@ + opt_seq(o),
{
    match o {
        Some(t) => {
            r.push(t);
            proof {
                assert(old(r)@.push(t) =~= old(r)@ + seq![t]);
            }
        },
        None => {
            proof {
                assert(old(r)@ + opt_seq(o) =~= old(r)@);
            }
        },
    }
}

fn push_all(r: &mut Vec<TermId>, v: &Vec<TermId>)
    ensures
        final(r)@ == old(r)@ + v@,
{
    let mut i: usize = 0;
    while i < v.len()
        invariant
            i <= v@.len(),
            r@ == old(r)@ + v@.subrange(0, i as int),
        decreases v@.len() - i,
    {
        r.push(v[i]);
        i = i + 1;
        proof {
            assert(r@ =~= old(r)@ + v@.subrange(0, i as int));
        }
    }
    proof {
        assert(v@.subrange(0, v@.len() as int) =~= v@);
    }
}

/// The children of a node, in their structural order.
pub(crate) fn public_children(node: &TermNode) -> (r: Vec<TermId>)
    ensures
        r@ == children_of(*node),
{
    let mut r: Vec<TermId> = Vec::new();
    match node {
        TermNode::Atom(_) => {
            proof {
                assert(r@ =~= children_of(*node));
            }
        },
        TermNode::Apply { head, arguments } => {
            r.push(*head);
            push_all(&mut r, arguments);
        },
        TermNode::Relation { left, right, .. } => {
            r.push(*left);
            r.push(*right);
            proof {
                assert(r@ =~= children_of(*node));
            }
        },
        TermNode::Boolean { arguments, .. } => {
            push_all(&mut r, arguments);
            proof {
                assert(r@ =~= children_of(*node));
            }
        },
        TermNode::Condition { expression, condition } => {
            r.push(*expression);
            r.push(*condition);
            proof {
                assert(r@ =~= children_of(*node));
            }
        },
        TermNode::Piecewise { cases, otherwise } => {
            let mut i: usize = 0;
            while i < cases.len()
                invariant
                    i <= cases@.len(),
                    r@ == case_children(cases@.subrange(0, i as int)),
                decreases cases@.len() - i,
            {
                r.push(cases[i].value);
                r.push(cases[i].condition);
                i = i + 1;
                proof {
                    assert(r@ =~= case_children(cases@.subrange(0, i as int)));
                }
            }
            proof {
                assert(cases@.subrange(0, cases@.len() as int) =~= cases@);
            }
            push_opt(&mut r, *otherwise);
        },
        TermNode::Collection { elements, .. } => {
            push_all(&mut r, elements);
            proof {
                assert(r@ =~= children_of(*node));
            }
        },
        TermNode::OrderedMap { entries } => {
            let mut i: usize = 0;
            while i < entries.len()
                invariant
                    i <= entries@.len(),
                    r@ == entry_children(entries@.subrange(0, i as int)),
                decreases entries@.len() - i,
            {
                r.push(entries[i].0);
                r.push(entries[i].1);
                i = i + 1;
                proof {
                    assert(r@ =~= entry_children(entries@.subrange(0, i as int)));
                }
            }
            proof {
                assert(entries@.subrange(0, entries@.len() as int) =~= entries@);
            }
        },
        TermNode::Index { target, indices } => {
            r.push(*target);
            push_all(&mut r, indices);
        },
        TermNode::Slice { target, start, end, step } => {
            r.push(*target);
            push_opt(&mut r, *start);
            push_opt(&mut r, *end);
            push_opt(&mut r, *step);
        },
        TermNode::Rule { pattern, replacement, condition, .. } => {
            r.push(*pattern);
            r.push(*replacement);
            proof {
                assert(r@ =~= seq![*pattern, *replacement]);
            }
            push_opt(&mut r, *condition);
        },
        TermNode::Binder { bounds, body, .. } => {
            push_all(&mut r, bounds);
            r.push(*body);
            proof {
                assert(r@ =~= children_of(*node));
            }
        },
        TermNode::Held { expression } => {
            r.push(*expression);
            proof {
                assert(r@ =~= children_of(*node));
            }
        },
    }
    r
}

/// The product of the extents of an array shape.
pub open spec fn extent_product(shape: Seq<usize>) -> int
    decreases shape.len(),
{
    if shape.len() == 0 {
        1
    } else {
        extent_product(shape.drop_last()) * shape.last()
    }
}

proof fn lemma_extent_product_grows(shape: Seq<usize>, k: int)
    requires
        0 <= k <= shape.len(),
        forall|i: int| 0 <= i < shape.len() ==> #[trigger] shape[i] >= 1,
    ensures
        extent_product(shape) >= extent_product(shape.subrange(0, k)) >= 1,
    decreases shape.len(),
{
    if shape.len() == 0 {
        assert(shape.subrange(0, k) =~= shape);
    } else if k == shape.len() {
        assert(shape.subrange(0, k) =~= shape);
        lemma_extent_product_grows(shape.drop_last(), 0);
        assert(shape.drop_last().subrange(0, 0) =~= shape.subrange(0, 0));
        let p = extent_product(shape.drop_last());
        assert(p * shape.last() >= 1) by (nonlinear_arith)
            requires
                p >= 1,
                shape.last() >= 1,
        ;
    } else {
        assert forall|i: int| 0 <= i < shape.drop_last().len() implies #[trigger] shape.drop_last()[i] >= 1 by {
            assert(shape.drop_last()[i] == shape[i]);
        }
        lemma_extent_product_grows(shape.drop_last(), k);
        assert(shape.drop_last().subrange(0, k) =~= shape.subrange(0, k));
        let p = extent_product(shape.drop_last());
        assert(p * shape.last() >= p) by (nonlinear_arith)
            requires
                p >= 1,
                shape.last() >= 1,
        ;
    }
}

/// The keys of an ordered map are pairwise distinct.
pub open spec fn keys_distinct(entries: Seq<(TermId, TermId)>) -> bool {
    forall|i: int, j: int| 0 <= i < j < entries.len() ==> entries[i].0 != entries[j].0
}

/// What is wrong with the shape of a node under a budget, checked in this
/// order: too many children; a `Not` without exactly one argument; another
/// connective with fewer than two; a piecewise term with neither a case
/// nor a default; an array whose rank exceeds the child budget, whose
/// extents are not all positive, or whose extents do not multiply to its
/// element count; an ordered map with a repeated key; an index without
/// indices. `None` when the shape is sound.
pub open spec fn shape_error(node: TermNode, budget: TermBudget) -> Option<TermError> {
    if children_of(node).len() > budget.max_children_per_node {
        Some(TermError::BudgetExceeded { resource: "children", limit: budget.max_children_per_node })
    } else {
        match node {
            TermNode::Boolean { operator, arguments } => if operator == BooleanOperator::Not && arguments@.len() != 1 {
                Some(TermError::InvalidNode("Not requires one argument"))
            } else if operator != BooleanOperator::Not && arguments@.len() < 2 {
                Some(TermError::InvalidNode("non-unary boolean operators require two arguments"))
            } else {
                None
            },
            TermNode::Piecewise { cases, otherwise } => if cases@.len() == 0 && otherwise is None {
                Some(TermError::InvalidNode("piecewise requires a case or default"))
            } else {
                None
            },
            TermNode::Collection { kind: CollectionKind::Array { shape }, elements } => if shape@.len()
                > budget.max_children_per_node {
                Some(TermError::BudgetExceeded { resource: "array rank", limit: budget.max_children_per_node })
            } else if shape@.len() == 0 || exists|i: int| 0 <= i < shape@.len() && #[trigger] shape@[i] == 0 {
                Some(TermError::InvalidNode("array shape must have positive extents"))
            } else if extent_product(shape@) != elements@.len() {
                Some(TermError::InvalidNode("array shape does not match element count"))
            } else {
                None
            },
            TermNode::OrderedMap { entries } => if !keys_distinct(entries@) {
                Some(TermError::InvalidNode("ordered map keys must be structurally unique"))
            } else {
                None
            },
            TermNode::Index { indices, .. } => if indices@.len() == 0 {
                Some(TermError::InvalidNode("index requires at least one index"))
            } else {
                None
            },
            _ => None,
        }
    }
}

/// Do the extents multiply to `count`? Extents are positive.
fn shape_matches(shape: &Vec<usize>, count: usize) -> (r: bool)
    requires
        forall|i: int| 0 <= i < shape@.len() ==> #[trigger] shape@[i] >= 1,
    ensures
        r == (extent_product(shape@) == count),
{
    let mut size: usize = 1;
    let mut i: usize = 0;
    proof {
        assert(shape@.subrange(0, 0).len() == 0);
    }
    while i < shape.len()
        invariant
            i <= shape@.len(),
            forall|j: int| 0 <= j < shape@.len() ==> #[trigger] shape@[j] >= 1,
            size == extent_product(shape@.subrange(0, i as int)),
        decreases shape@.len() - i,
    {
        proof {
            assert(shape@.subrange(0, i + 1).drop_last() =~= shape@.subrange(0, i as int));
        }
        match size.checked_mul(shape[i]) {
            Some(s) => {
                size = s;
            },
            None => {
                proof {
                    lemma_extent_product_grows(shape@, i + 1);
                }
                return false;
            },
        }
        i = i + 1;
    }
    proof {
        assert(shape@.subrange(0, shape@.len() as int) =~= shape@);
    }
    size == count
}

/// Are the keys of the entries pairwise distinct?
fn distinct_keys(entries: &Vec<(TermId, TermId)>) -> (r: bool)
    ensures
        r == keys_distinct(entries@),
{
    let mut j: usize = 0;
    while j < entries.len()
        invariant
            j <= entries@.len(),
            forall|a: int, b: int| 0 <= a < b < j ==> entries@[a].0 != entries@[b].0,
        decreases entries@.len() - j,
    {
        let mut i: usize = 0;
        while i < j
            invariant
                i <= j < entries@.len(),
                forall|a: int| 0 <= a < i ==> entries@[a].0 != entries@[j as int].0,
            decreases j - i,
        {
            if entries[i].0 == entries[j].0 {
                return false;
            }
            i = i + 1;
        }
        j = j + 1;
    }
    true
}

/// Are all extents positive?
fn all_positive(shape: &Vec<usize>) -> (r: bool)
    ensures
        r == !(exists|i: int| 0 <= i < shape@.len() && #[trigger] shape@[i] == 0),
        r ==> forall|i: int| 0 <= i < shape@.len() ==> #[trigger] shape@[i] >= 1,
{
    let mut i: usize = 0;
    while i < shape.len()
        invariant
            i <= shape@.len(),
            forall|j: int| 0 <= j < i ==> #[trigger] shape@[j] != 0,
        decreases shape@.len() - i,
    {
        if shape[i] == 0 {
            proof {
                assert(shape@[i as int] == 0);
            }
            return false;
        }
        i = i + 1;
    }
    true
}

/// Check the shape of a node under a budget ([`shape_error`]).
fn validate_node_shape(node: &TermNode, budget: TermBudget) -> (r: Result<(), TermError>)
    ensures
        r == (match shape_error(*node, budget) {
            Some(e) => Err::<(), TermError>(e),
            None => Ok(()),
        }),
{
    let kids = public_children(node);
    if kids.len() > budget.max_children_per_node {
        return Err(exceeded("children", budget.max_children_per_node));
    }
    match node {
        TermNode::Boolean { operator, arguments } => {
            if *operator == BooleanOperator::Not && arguments.len() != 1 {
                return Err(TermError::InvalidNode("Not requires one argument"));
            }
            if *operator != BooleanOperator::Not && arguments.len() < 2 {
                return Err(TermError::InvalidNode("non-unary boolean operators require two arguments"));
            }
            Ok(())
        },
        TermNode::Piecewise { cases, otherwise } => {
            if cases.len() == 0 && otherwise.is_none() {
                return Err(TermError::InvalidNode("piecewise requires a case or default"));
            }
            Ok(())
        },
        TermNode::Collection { kind, elements } => {
            match kind {
                CollectionKind::Array { shape } => {
                    if shape.len() > budget.max_children_per_node {
                        return Err(exceeded("array rank", budget.max_children_per_node));
                    }
                    if shape.len() == 0 {
                        return Err(TermError::InvalidNode("array shape must have positive extents"));
                    }
                    if !all_positive(shape) {
                        return Err(TermError::InvalidNode("array shape must have positive extents"));
                    }
                    if !shape_matches(shape, elements.len()) {
                        return Err(TermError::InvalidNode("array shape does not match element count"));
                    }
                    Ok(())
                },
                _ => Ok(()),
            }
        },
        TermNode::OrderedMap { entries } => {
            if !distinct_keys(entries) {
                return Err(TermError::InvalidNode("ordered map keys must be structurally unique"));
            }
            Ok(())
        },
        TermNode::Index { indices, .. } => {
            if indices.len() == 0 {
                return Err(TermError::InvalidNode("index requires at least one index"));
            }
            Ok(())
        },
        _ => Ok(()),
    }
}

/// The number of bounds a binder of `kind` over `variables` variables
/// takes: none for a lambda, a pair per variable for sums, products and
/// integrals, one per variable for limits and local bindings.
pub open spec fn expected_bounds(kind: BinderKind, variables: nat) -> nat {
    match kind {
        BinderKind::Lambda => 0,
        BinderKind::Sum | BinderKind::Product | BinderKind::Integral => 2 * variables,
        BinderKind::Limit | BinderKind::Local => variables,
    }
}

/// What is wrong with a binder's arity: no variables, an arity past the
/// machine word, or the wrong number of bounds.
pub open spec fn binder_error(kind: BinderKind, variable_count: u32, bound_count: nat) -> Option<TermError> {
    if variable_count == 0 {
        Some(TermError::InvalidBinder("variable count must be nonzero"))
    } else if expected_bounds(kind, variable_count as nat) > usize::MAX {
        Some(TermError::InvalidBinder("binder arity overflow"))
    } else if bound_count != expected_bounds(kind, variable_count as nat) {
        Some(TermError::InvalidBinder("wrong bound arity"))
    } else {
        None
    }
}

/// Check a binder's arity ([`binder_error`]).
fn validate_binder_shape(kind: BinderKind, variable_count: u32, bound_count: usize) -> (r: Result<(), TermError>)
    ensures
        r == (match binder_error(kind, variable_count, bound_count as nat) {
            Some(e) => Err::<(), TermError>(e),
            None => Ok(()),
        }),
{
    if variable_count == 0 {
        return Err(TermError::InvalidBinder("variable count must be nonzero"));
    }
    let variables = variable_count as usize;
    let expected: usize = match kind {
        BinderKind::Lambda => 0,
        BinderKind::Sum | BinderKind::Product | BinderKind::Integral => match variables.checked_mul(2) {
            Some(x) => x,
            None => {
                return Err(TermError::InvalidBinder("binder arity overflow"));
            },
        },
        BinderKind::Limit | BinderKind::Local => variables,
    };
    if bound_count != expected {
        return Err(TermError::InvalidBinder("wrong bound arity"));
    }
    Ok(())
}

/// What is wrong with an integer spelling: not a numeral, or not the
/// canonical spelling of its value.
pub open spec fn integer_error(text: Seq<char>) -> Option<TermError> {
    if !decimal_integer_syntax(text) {
        Some(TermError::InvalidAtom("invalid canonical integer"))
    } else if !canonical_integer_spec(text) {
        Some(TermError::InvalidAtom("non-canonical integer spelling"))
    } else {
        None
    }
}

/// What is wrong with a precision real `(significand, exponent, bits)`:
/// zero precision, a significand that is not a canonical integer, an
/// exponent that cannot absorb the trailing zeros, or trailing zeros left
/// in the significand.
pub open spec fn precision_error(p: (Seq<char>, i64, u32)) -> Option<TermError> {
    if p.2 == 0 {
        Some(TermError::InvalidAtom("precision must be nonzero"))
    } else if integer_error(p.0) is Some {
        integer_error(p.0)
    } else if !(p.0 == seq!['0'] || p.1 + trailing_zeros(p.0) <= i64::MAX) {
        Some(TermError::InvalidAtom("precision-real exponent overflow"))
    } else if normalized(p.0, p.1 as int) != (p.0, p.1 as int) {
        Some(TermError::InvalidAtom("non-canonical precision real"))
    } else {
        None
    }
}

/// Every character is whitespace (so the text trims to nothing).
pub open spec fn all_whitespace(s: Seq<char>) -> bool {
    forall|i: int| 0 <= i < s.len() ==> unicode_whitespace(#[trigger] s[i])
}

/// The text holds a NUL character.
pub open spec fn has_nul(s: Seq<char>) -> bool {
    exists|i: int| 0 <= i < s.len() && #[trigger] s[i] == '\0'
}

/// What is wrong with the content of an atom, whatever the budget: a
/// non-canonical integer, exact decimal or precision real, or a symbol
/// whose name is blank or holds a NUL.
pub open spec fn atom_content_error(atom: Atom) -> Option<TermError> {
    match atom {
        Atom::Integer(v) => integer_error(v@),
        Atom::ExactDecimal(x) => if integer_error(x@.0) is Some {
            integer_error(x@.0)
        } else if (x@.0 == seq!['0'] && x@.1 != 0) || (x@.0 != seq!['0'] && x@.0.len() > 0 && x@.0.last() == '0') {
            Some(TermError::InvalidAtom("non-canonical exact decimal"))
        } else {
            None
        },
        Atom::PrecisionReal(x) => precision_error(x@),
        Atom::Symbol(v) => if all_whitespace(v.name@) || has_nul(v.name@) || has_nul(v.namespace@) {
            Some(TermError::InvalidAtom("invalid symbol name"))
        } else {
            None
        },
        _ => None,
    }
}

/// The UTF-8 length of a text held in memory.
pub open spec fn text_len(s: Seq<char>) -> nat {
    (encode_utf8(s).len() as usize) as nat
}

/// The payload size of an atom in bytes: the UTF-8 length of its text,
/// the decimal lengths of a rational's numerator and denominator, the
/// length of a byte string, and eight for fixed-width values.
pub open spec fn atom_bytes(atom: Atom) -> nat {
    match atom {
        Atom::Integer(v) => text_len(v@),
        Atom::Rational(q) => text_len(int_spelling(q@.0)) + text_len(int_spelling(q@.1)),
        Atom::ExactDecimal(x) => text_len(x@.0),
        Atom::PrecisionReal(x) => text_len(x@.0),
        Atom::String(v) => text_len(v@),
        Atom::Bytes(v) => v@.len(),
        Atom::Symbol(v) => text_len(v.namespace@) + text_len(v.name@),
        _ => 8,
    }
}

/// What is wrong with an atom under a budget: its content
/// ([`atom_content_error`]), then a payload past the atom budget.
pub open spec fn atom_error(atom: Atom, budget: TermBudget) -> Option<TermError> {
    if atom_content_error(atom) is Some {
        atom_content_error(atom)
    } else if atom_bytes(atom) > budget.max_atom_bytes {
        Some(TermError::BudgetExceeded { resource: "atom bytes", limit: budget.max_atom_bytes })
    } else {
        None
    }
}

fn all_whitespace_exec(s: &str) -> (r: bool)
    ensures
        r == all_whitespace(s@),
{
    let cs = crate::units::chars_of(s);
    let mut i: usize = 0;
    while i < cs.len()
        invariant
            i <= cs@.len(),
            cs@ == s@,
            forall|j: int| 0 <= j < i ==> unicode_whitespace(#[trigger] cs@[j]),
        decreases cs@.len() - i,
    {
        if !crate::units::is_whitespace(cs[i]) {
            return false;
        }
        i = i + 1;
    }
    true
}

fn has_nul_exec(s: &str) -> (r: bool)
    ensures
        r == has_nul(s@),
{
    let cs = crate::units::chars_of(s);
    crate::term::contains_nul(&cs)
}

/// The byte length of the decimal spelling of an integer-valued rational.
fn spelling_len(v: &Rational) -> (r: usize)
    requires
        v@.1 == 1,
    ensures
        r == text_len(int_spelling(v@.0)),
{
    let s = integer_spelling(v);
    s.as_str().len()
}

/// Check an atom's content and size ([`atom_error`]).
fn validate_atom(atom: &Atom, budget: TermBudget) -> (r: Result<(), TermError>)
    ensures
        r == (match atom_error(*atom, budget) {
            Some(e) => Err::<(), TermError>(e),
            None => Ok(()),
        }),
{
    let bytes: usize = match atom {
        Atom::Integer(value) => {
            match canonical_integer(value.as_str()) {
                Ok(_) => {},
                Err(e) => {
                    return Err(e);
                },
            }
            value.as_str().len()
        },
        Atom::Rational(value) => {
            let n = spelling_len(&value.numerator());
            let d = spelling_len(&value.denominator());
            match n.checked_add(d) {
                Some(b) => b,
                None => {
                    return Err(exceeded("atom bytes", budget.max_atom_bytes));
                },
            }
        },
        Atom::ExactDecimal(value) => {
            let c = value.coefficient();
            match canonical_integer(c) {
                Ok(_) => {},
                Err(e) => {
                    return Err(e);
                },
            }
            let cs = crate::units::chars_of(c);
            let zero = cs.len() == 1 && cs[0] == '0';
            proof {
                if cs@ == seq!['0'] {
                    assert(cs@[0] == '0');
                }
                if zero {
                    assert(cs@ =~= seq!['0']);
                }
            }
            let ends_zero = cs.len() > 0 && cs[cs.len() - 1] == '0';
            if (zero && value.scale() != 0) || (!zero && ends_zero) {
                return Err(TermError::InvalidAtom("non-canonical exact decimal"));
            }
            c.len()
        },
        Atom::PrecisionReal(value) => {
            let rebuilt = match PrecisionReal::new(value.significand(), value.exponent10(), value.precision_bits()) {
                Ok(p) => p,
                Err(e) => {
                    return Err(e);
                },
            };
            if !rebuilt.same_as(value) {
                return Err(TermError::InvalidAtom("non-canonical precision real"));
            }
            value.significand().len()
        },
        Atom::String(value) => value.as_str().len(),
        Atom::Bytes(value) => value.len(),
        Atom::Symbol(value) => {
            if all_whitespace_exec(value.name.as_str()) || has_nul_exec(value.name.as_str()) || has_nul_exec(
                value.namespace.as_str(),
            ) {
                return Err(TermError::InvalidAtom("invalid symbol name"));
            }
            match value.namespace.as_str().len().checked_add(value.name.as_str().len()) {
                Some(b) => b,
                None => {
                    return Err(exceeded("atom bytes", budget.max_atom_bytes));
                },
            }
        },
        _ => 8,
    };
    if bytes > budget.max_atom_bytes {
        return Err(exceeded("atom bytes", budget.max_atom_bytes));
    }
    Ok(())
}

/// One if the handle is present.
pub open spec fn present(o: Option<TermId>) -> nat {
    if o is Some {
        1
    } else {
        0
    }
}

/// The logical size of an atom's payload.
pub open spec fn atom_logical_bytes(atom: Atom) -> nat {
    match atom {
        Atom::Integer(v) => 8 + text_len(v@),
        Atom::String(v) => 8 + text_len(v@),
        Atom::Rational(q) => 8 + text_len(int_spelling(q@.0)) + 8 + text_len(int_spelling(q@.1)),
        Atom::ExactDecimal(x) => 8 + text_len(x@.0) + 8,
        Atom::PrecisionReal(x) => 8 + text_len(x@.0) + 8 + 4,
        Atom::Bytes(v) => 8 + v@.len(),
        Atom::Symbol(_) => 4,
        Atom::ExactIeee754Bits(_) => 8,
        Atom::MachineFloatBits(_) => 8,
        Atom::Boolean(_) => 1,
        Atom::Constant(_) => 1,
        Atom::BoundVariable(_) => 4,
    }
}

/// The portable logical size of a node: a tag, then its payload — fixed
/// widths for tags, lengths and references, and the bytes of its texts.
pub open spec fn node_logical_bytes(node: TermNode) -> nat {
    1 + match node {
        TermNode::Atom(a) => 1 + atom_logical_bytes(a),
        TermNode::Apply { arguments, .. } => 8 + 8 * (arguments@.len() + 1),
        TermNode::Index { indices, .. } => 8 + 8 * (indices@.len() + 1),
        TermNode::Relation { .. } => 1 + 16,
        TermNode::Condition { .. } => 16,
        TermNode::Boolean { arguments, .. } => 1 + 8 + 8 * arguments@.len(),
        TermNode::Piecewise { cases, otherwise } => 8 + 8 * (2 * cases@.len()) + 1 + 8 * present(otherwise),
        TermNode::Collection { kind, elements } => 1 + (match kind {
            CollectionKind::Array { shape } => 8 + 8 * shape@.len(),
            _ => 0,
        }) + 8 + 8 * elements@.len(),
        TermNode::OrderedMap { entries } => 8 + 8 * (2 * entries@.len()),
        TermNode::Slice { start, end, step, .. } => 8 + 3 + 8 * (present(start) + present(end) + present(step)),
        TermNode::Rule { condition, .. } => 1 + 16 + 1 + 8 * present(condition),
        TermNode::Binder { bounds, .. } => 1 + 4 + 8 + 8 * (bounds@.len() + 1),
        TermNode::Held { .. } => 8,
    }
}

/// The logical size of an interned symbol: its two texts with lengths.
pub open spec fn symbol_logical_bytes(v: SymbolName) -> nat {
    8 + text_len(v.namespace@) + 8 + text_len(v.name@)
}

/// The logical size of a sequence of nodes.
pub open spec fn nodes_logical_bytes(nodes: Seq<TermNode>) -> nat
    decreases nodes.len(),
{
    if nodes.len() == 0 {
        0
    } else {
        nodes_logical_bytes(nodes.drop_last()) + node_logical_bytes(nodes.last())
    }
}

/// The logical size of a symbol table.
pub open spec fn symbols_logical_bytes(symbols: Seq<SymbolName>) -> nat
    decreases symbols.len(),
{
    if symbols.len() == 0 {
        0
    } else {
        symbols_logical_bytes(symbols.drop_last()) + symbol_logical_bytes(symbols.last())
    }
}

/// A count clamped to `u64::MAX`, as saturating arithmetic leaves it.
pub open spec fn saturate(n: nat) -> u64 {
    if n > u64::MAX {
        u64::MAX
    } else {
        n as u64
    }
}

fn clamp(n: u128) -> (r: u64)
    ensures
        r == saturate(n as nat),
{
    if n > 0xffff_ffff_ffff_ffffu128 {
        0xffff_ffff_ffff_ffffu64
    } else {
        n as u64
    }
}

fn opt_count(o: Option<TermId>) -> (r: u128)
    ensures
        r == present(o),
{
    if o.is_some() {
        1
    } else {
        0
    }
}

/// The logical size of a node, saturated.
fn logical_node_bytes(node: &TermNode) -> (r: u64)
    ensures
        r == saturate(node_logical_bytes(*node)),
{
    let payload: u128 = match node {
        TermNode::Atom(a) => {
            let inner: u128 = match a {
                Atom::Integer(v) => 8 + v.as_str().len() as u128,
                Atom::String(v) => 8 + v.as_str().len() as u128,
                Atom::Rational(q) => {
                    let n = spelling_len(&q.numerator()) as u128;
                    let d = spelling_len(&q.denominator()) as u128;
                    8 + n + 8 + d
                },
                Atom::ExactDecimal(x) => 8 + x.coefficient().len() as u128 + 8,
                Atom::PrecisionReal(x) => 8 + x.significand().len() as u128 + 8 + 4,
                Atom::Bytes(v) => 8 + v.len() as u128,
                Atom::Symbol(_) => 4,
                Atom::ExactIeee754Bits(_) => 8,
                Atom::MachineFloatBits(_) => 8,
                Atom::Boolean(_) => 1,
                Atom::Constant(_) => 1,
                Atom::BoundVariable(_) => 4,
            };
            1 + inner
        },
        TermNode::Apply { arguments, .. } => 8 + 8 * (arguments.len() as u128 + 1),
        TermNode::Index { indices, .. } => 8 + 8 * (indices.len() as u128 + 1),
        TermNode::Relation { .. } => 1 + 16,
        TermNode::Condition { .. } => 16,
        TermNode::Boolean { arguments, .. } => 1 + 8 + 8 * arguments.len() as u128,
        TermNode::Piecewise { cases, otherwise } => 8 + 8 * (2 * cases.len() as u128) + 1 + 8 * opt_count(*otherwise),
        TermNode::Collection { kind, elements } => {
            let shape: u128 = match kind {
                CollectionKind::Array { shape } => 8 + 8 * shape.len() as u128,
                _ => 0,
            };
            1 + shape + 8 + 8 * elements.len() as u128
        },
        TermNode::OrderedMap { entries } => 8 + 8 * (2 * entries.len() as u128),
        TermNode::Slice { start, end, step, .. } => 8 + 3 + 8 * (opt_count(*start) + opt_count(*end) + opt_count(
            *step,
        )),
        TermNode::Rule { condition, .. } => 1 + 16 + 1 + 8 * opt_count(*condition),
        TermNode::Binder { bounds, .. } => 1 + 4 + 8 + 8 * (bounds.len() as u128 + 1),
        TermNode::Held { .. } => 8,
    };
    clamp(1 + payload)
}

/// The logical size of a symbol, saturated.
fn logical_symbol_bytes(v: &SymbolName) -> (r: u64)
    ensures
        r == saturate(symbol_logical_bytes(*v)),
{
    clamp(8 + v.namespace.as_str().len() as u128 + 8 + v.name.as_str().len() as u128)
}

proof fn lemma_saturate_add(a: nat, b: nat)
    ensures
        saturate(a + b) == saturate((saturate(a) + saturate(b)) as nat),
{
}

/// The depth of the deepest of `kids` (0 for none), by the depth table.
pub open spec fn deepest(kids: Seq<TermId>, depths: Seq<usize>) -> nat
    decreases kids.len(),
{
    if kids.len() == 0 {
        0
    } else {
        let d = deepest(kids.drop_last(), depths);
        let e = depths[kids.last().position() as int] as nat;
        if d >= e {
            d
        } else {
            e
        }
    }
}

/// What is wrong with a handle given a store's identity and size.
pub open spec fn handle_error(store: u64, len: nat, t: TermId) -> Option<TermError> {
    if t.owner() != store {
        Some(TermError::ForeignTerm)
    } else if t.position() >= len {
        Some(TermError::UnknownTerm)
    } else {
        None
    }
}

/// The error of the first bad handle among `kids`, in order.
pub open spec fn first_handle_error(store: u64, len: nat, kids: Seq<TermId>) -> Option<TermError>
    decreases kids.len(),
{
    if kids.len() == 0 {
        None
    } else if handle_error(store, len, kids[0]) is Some {
        handle_error(store, len, kids[0])
    } else {
        first_handle_error(store, len, kids.drop_first())
    }
}

proof fn lemma_first_handle_error_none(store: u64, len: nat, kids: Seq<TermId>)
    ensures
        first_handle_error(store, len, kids) is None <==> forall|i: int|
            0 <= i < kids.len() ==> handle_error(store, len, #[trigger] kids[i]) is None,
    decreases kids.len(),
{
    if kids.len() > 0 {
        lemma_first_handle_error_none(store, len, kids.drop_first());
        if first_handle_error(store, len, kids) is None {
            assert forall|i: int| 0 <= i < kids.len() implies handle_error(store, len, #[trigger] kids[i]) is None by {
                if i > 0 {
                    assert(kids[i] == kids.drop_first()[i - 1]);
                }
            }
        } else if handle_error(store, len, kids[0]) is None {
            let i = choose|i: int|
                0 <= i < kids.drop_first().len() && handle_error(store, len, #[trigger] kids.drop_first()[i]) is Some;
            assert(kids[i + 1] == kids.drop_first()[i]);
        }
    }
}

/// What a node's atom or binder arity gets wrong.
pub open spec fn content_error(node: TermNode, budget: TermBudget) -> Option<TermError> {
    match node {
        TermNode::Atom(a) => atom_error(a, budget),
        TermNode::Binder { kind, variable_count, bounds, .. } => binder_error(kind, variable_count, bounds@.len()),
        _ => None,
    }
}

/// The hash-consed arena of one store: every node once, children before
/// their parents.
#[derive(Debug)]
pub struct TermStore {
    id: u64,
    nodes: Vec<TermNode>,
    depths: Vec<usize>,
    symbols: Vec<SymbolName>,
    logical_node_bytes: u64,
    logical_symbol_bytes: u64,
}

impl TermStore {
    /// The identity that the store's handles carry.
    pub closed spec fn store_id(self) -> u64 {
        self.id
    }

    /// The nodes, by position.
    pub closed spec fn terms(self) -> Seq<TermNode> {
        self.nodes@
    }

    /// The depth of each node: one more than its deepest child.
    pub closed spec fn depths(self) -> Seq<usize> {
        self.depths@
    }

    /// The interned symbol names, in order of first use.
    pub closed spec fn symbol_table(self) -> Seq<SymbolName> {
        self.symbols@
    }

    /// The logical sizes kept for nodes and symbols.
    pub closed spec fn logical_totals(self) -> (u64, u64) {
        (self.logical_node_bytes, self.logical_symbol_bytes)
    }

    /// The handle of position `i`.
    pub open spec fn names(self, t: TermId, i: int) -> bool {
        t.owner() == self.store_id() && t.position() == i
    }

    /// Does the store hold a node structurally the same as `node`?
    pub open spec fn holds_same(self, node: TermNode) -> bool {
        exists|i: int| 0 <= i < self.terms().len() && node_same(#[trigger] self.terms()[i], node)
    }

    /// Is `t` a handle of this store naming one of its terms?
    pub open spec fn contains(self, t: TermId) -> bool {
        t.owner() == self.store_id() && t.position() < self.terms().len()
    }

    /// The store's invariant: depths beside nodes; handles fit in 32 bits;
    /// every child is an earlier term of this store; each depth is one more
    /// than the deepest child; no two nodes are structurally the same; the
    /// symbol table holds each symbol of a symbol atom once; the logical
    /// sizes are the saturated sums.
    pub open spec fn wf(self) -> bool {
        &&& self.depths().len() == self.terms().len()
        &&& self.terms().len() <= u32::MAX + 1
        &&& forall|i: int, k: int|
            0 <= i < self.terms().len() && 0 <= k < children_of(self.terms()[i]).len() ==> {
                let c = #[trigger] children_of(self.terms()[i])[k];
                c.owner() == self.store_id() && c.position() < i
            }
        &&& forall|i: int|
            0 <= i < self.terms().len() ==> #[trigger] self.depths()[i] == deepest(
                children_of(self.terms()[i]),
                self.depths(),
            ) + 1
        &&& forall|i: int, j: int|
            0 <= i < j < self.terms().len() ==> !node_same(#[trigger] self.terms()[i], #[trigger] self.terms()[j])
        &&& self.symbol_table().len() <= self.terms().len()
        &&& forall|a: int, b: int|
            0 <= a < b < self.symbol_table().len() ==> !symbol_same(
                #[trigger] self.symbol_table()[a],
                #[trigger] self.symbol_table()[b],
            )
        &&& forall|i: int|
            0 <= i < self.terms().len() ==> (#[trigger] self.terms()[i] matches TermNode::Atom(Atom::Symbol(v))
                ==> exists|k: int| 0 <= k < self.symbol_table().len() && symbol_same(#[trigger] self.symbol_table()[k], v))
        &&& self.logical_totals().0 == saturate(nodes_logical_bytes(self.terms()))
        &&& self.logical_totals().1 == saturate(symbols_logical_bytes(self.symbol_table()))
    }

    /// What refuses a node before the lookup: its shape, the first child
    /// handle that does not name a term of this store, its atom or binder
    /// arity, then its depth.
    pub open spec fn node_error(self, node: TermNode, budget: TermBudget) -> Option<TermError> {
        let kids = children_of(node);
        if shape_error(node, budget) is Some {
            shape_error(node, budget)
        } else if first_handle_error(self.store_id(), self.terms().len(), kids) is Some {
            first_handle_error(self.store_id(), self.terms().len(), kids)
        } else if content_error(node, budget) is Some {
            content_error(node, budget)
        } else if deepest(kids, self.depths()) >= usize::MAX {
            Some(TermError::BudgetExceeded { resource: "depth", limit: usize::MAX })
        } else if deepest(kids, self.depths()) + 1 > budget.max_depth {
            Some(TermError::BudgetExceeded { resource: "depth", limit: budget.max_depth })
        } else {
            None
        }
    }

    /// What refuses interning `node`: [`TermStore::node_error`], then, for a
    /// node not yet held, a full node budget or an exhausted handle space.
    pub open spec fn intern_error(self, node: TermNode, budget: TermBudget) -> Option<TermError> {
        if self.node_error(node, budget) is Some {
            self.node_error(node, budget)
        } else if self.holds_same(node) {
            None
        } else if self.terms().len() >= budget.max_nodes {
            Some(TermError::BudgetExceeded { resource: "nodes", limit: budget.max_nodes })
        } else if self.terms().len() > u32::MAX {
            Some(TermError::HandleSpaceExhausted)
        } else {
            None
        }
    }

    /// An empty store whose handles carry the identity `id`. Distinct live
    /// stores are given distinct identities by their owner, so that a
    /// handle of one is foreign to the other.
    pub fn new(id: u64) -> (r: TermStore)
        ensures
            r.wf(),
            r.store_id() == id,
            r.terms().len() == 0,
            r.symbol_table().len() == 0,
    {
        let r = TermStore {
            id,
            nodes: Vec::new(),
            depths: Vec::new(),
            symbols: Vec::new(),
            logical_node_bytes: 0,
            logical_symbol_bytes: 0,
        };
        proof {
            assert(nodes_logical_bytes(r.nodes@) == 0);
            assert(symbols_logical_bytes(r.symbols@) == 0);
        }
        r
    }

    /// The number of terms.
    pub fn len(&self) -> (r: usize)
        ensures
            r == self.terms().len(),
    {
        self.nodes.len()
    }

    /// Does the store hold no term?
    pub fn is_empty(&self) -> (r: bool)
        ensures
            r == (self.terms().len() == 0),
    {
        self.nodes.len() == 0
    }

    /// Terms, symbols, and the saturated sum of the logical sizes of nodes
    /// and symbols.
    pub fn metrics(&self) -> (r: StoreMetrics)
        requires
            self.wf(),
        ensures
            r.terms == self.terms().len(),
            r.symbols == self.symbol_table().len(),
            r.logical_bytes == saturate(nodes_logical_bytes(self.terms()) + symbols_logical_bytes(self.symbol_table())),
    {
        proof {
            lemma_saturate_add(nodes_logical_bytes(self.terms()), symbols_logical_bytes(self.symbol_table()));
        }
        StoreMetrics {
            terms: self.nodes.len(),
            symbols: self.symbols.len(),
            logical_bytes: self.logical_node_bytes.saturating_add(self.logical_symbol_bytes),
        }
    }

    /// The interned symbol at `id`, if any.
    pub fn symbol(&self, id: SymbolId) -> (r: Option<&SymbolName>)
        ensures
            id.0 < self.symbol_table().len() ==> r == Some(&self.symbol_table()[id.0 as int]),
            id.0 >= self.symbol_table().len() ==> r is None,
    {
        let i = id.index();
        if i < self.symbols.len() {
            Some(&self.symbols[i])
        } else {
            None
        }
    }

    /// The handle of position `index`.
    fn id(&self, index: u32) -> (r: TermId)
        ensures
            self.names(r, index as int),
    {
        TermId::handle(self.id, index)
    }

    /// The stored node a handle names: foreign for a handle of another
    /// store, unknown past the end.
    fn get(&self, id: TermId) -> (r: Result<&TermNode, TermError>)
        ensures
            handle_error(self.store_id(), self.terms().len(), id) is Some <==> r is Err,
            r matches Err(e) ==> handle_error(self.store_id(), self.terms().len(), id) == Some(e),
            r matches Ok(n) ==> *n == self.terms()[id.position() as int],
    {
        if id.store_of() != self.id {
            return Err(TermError::ForeignTerm);
        }
        let i = id.index();
        if i >= self.nodes.len() {
            return Err(TermError::UnknownTerm);
        }
        Ok(&self.nodes[i])
    }

    /// A copy of the node a handle names.
    pub fn node(&self, id: TermId) -> (r: Result<TermNode, TermError>)
        ensures
            r is Err <==> handle_error(self.store_id(), self.terms().len(), id) is Some,
            r matches Err(e) ==> handle_error(self.store_id(), self.terms().len(), id) == Some(e),
            r matches Ok(n) ==> node_same(n, self.terms()[id.position() as int]),
    {
        match self.get(id) {
            Ok(n) => Ok(n.clone()),
            Err(e) => Err(e),
        }
    }
}

proof fn lemma_deepest_push(kids: Seq<TermId>, depths: Seq<usize>, d: usize)
    requires
        forall|k: int| 0 <= k < kids.len() ==> (#[trigger] kids[k]).position() < depths.len(),
    ensures
        deepest(kids, depths.push(d)) == deepest(kids, depths),
    decreases kids.len(),
{
    if kids.len() > 0 {
        assert forall|k: int| 0 <= k < kids.drop_last().len() implies (#[trigger] kids.drop_last()[k]).position()
            < depths.len() by {
            assert(kids.drop_last()[k] == kids[k]);
        }
        lemma_deepest_push(kids.drop_last(), depths, d);
        assert(kids.last() == kids[kids.len() - 1]);
    }
}

proof fn lemma_nodes_logical_push(nodes: Seq<TermNode>, n: TermNode)
    ensures
        nodes_logical_bytes(nodes.push(n)) == nodes_logical_bytes(nodes) + node_logical_bytes(n),
{
    assert(nodes.push(n).drop_last() =~= nodes);
}

proof fn lemma_symbols_logical_push(symbols: Seq<SymbolName>, v: SymbolName)
    ensures
        symbols_logical_bytes(symbols.push(v)) == symbols_logical_bytes(symbols) + symbol_logical_bytes(v),
{
    assert(symbols.push(v).drop_last() =~= symbols);
}

impl TermStore {
    /// Check child handles in order, failing on the first bad one.
    fn check_children(&self, kids: &Vec<TermId>) -> (r: Result<(), TermError>)
        ensures
            r == (match first_handle_error(self.store_id(), self.terms().len(), kids@) {
                Some(e) => Err::<(), TermError>(e),
                None => Ok(()),
            }),
    {
        let ghost len = self.terms().len();
        let mut i: usize = 0;
        proof {
            assert(kids@.subrange(0, kids@.len() as int) =~= kids@);
        }
        while i < kids.len()
            invariant
                i <= kids@.len(),
                len == self.terms().len(),
                first_handle_error(self.store_id(), len, kids@) == first_handle_error(
                    self.store_id(),
                    len,
                    kids@.subrange(i as int, kids@.len() as int),
                ),
            decreases kids@.len() - i,
        {
            let ghost rest = kids@.subrange(i as int, kids@.len() as int);
            proof {
                assert(rest[0] == kids@[i as int]);
                assert(rest.drop_first() =~= kids@.subrange(i + 1, kids@.len() as int));
            }
            match self.get(kids[i]) {
                Ok(_) => {},
                Err(e) => {
                    return Err(e);
                },
            }
            i = i + 1;
        }
        proof {
            assert(kids@.subrange(i as int, kids@.len() as int).len() == 0);
        }
        Ok(())
    }

    /// The depth of the deepest child.
    fn child_depth(&self, kids: &Vec<TermId>) -> (r: usize)
        requires
            self.wf(),
            forall|k: int| 0 <= k < kids@.len() ==> self.contains(#[trigger] kids@[k]),
        ensures
            r == deepest(kids@, self.depths()),
    {
        let mut best: usize = 0;
        let mut i: usize = 0;
        proof {
            assert(kids@.subrange(0, 0).len() == 0);
        }
        while i < kids.len()
            invariant
                i <= kids@.len(),
                self.wf(),
                forall|k: int| 0 <= k < kids@.len() ==> self.contains(#[trigger] kids@[k]),
                best == deepest(kids@.subrange(0, i as int), self.depths()),
            decreases kids@.len() - i,
        {
            let t = kids[i];
            proof {
                assert(self.contains(kids@[i as int]));
                assert(kids@.subrange(0, i + 1).drop_last() =~= kids@.subrange(0, i as int));
                assert(kids@.subrange(0, i + 1).last() == t);
            }
            let d = self.depths[t.index()];
            if d > best {
                best = d;
            }
            i = i + 1;
        }
        proof {
            assert(kids@.subrange(0, kids@.len() as int) =~= kids@);
        }
        best
    }

    /// The position of a node structurally the same as `node`, if any.
    fn find_same(&self, node: &TermNode) -> (r: Option<usize>)
        ensures
            r matches Some(i) ==> i < self.terms().len() && node_same(self.terms()[i as int], *node),
            r is None ==> !self.holds_same(*node),
    {
        let mut i: usize = 0;
        while i < self.nodes.len()
            invariant
                i <= self.terms().len(),
                forall|j: int| 0 <= j < i ==> !node_same(#[trigger] self.terms()[j], *node),
            decreases self.terms().len() - i,
        {
            if crate::term::node_eq(&self.nodes[i], node) {
                return Some(i);
            }
            i = i + 1;
        }
        None
    }

    /// Is a symbol with this name already interned?
    fn has_symbol(&self, v: &SymbolName) -> (r: bool)
        ensures
            r == exists|k: int| 0 <= k < self.symbol_table().len() && symbol_same(#[trigger] self.symbol_table()[k], *v),
    {
        let mut k: usize = 0;
        while k < self.symbols.len()
            invariant
                k <= self.symbol_table().len(),
                forall|j: int| 0 <= j < k ==> !symbol_same(#[trigger] self.symbol_table()[j], *v),
            decreases self.symbol_table().len() - k,
        {
            if self.symbols[k].namespace.eq(&v.namespace) && self.symbols[k].name.eq(&v.name) {
                proof {
                    assert(symbol_same(self.symbol_table()[k as int], *v));
                }
                return true;
            }
            k = k + 1;
        }
        false
    }

    /// Validate a node against the budget and this store
    /// ([`TermStore::node_error`]) and give its depth.
    fn check_node(&self, node: &TermNode, budget: TermBudget) -> (r: Result<usize, TermError>)
        requires
            self.wf(),
        ensures
            r is Err <==> self.node_error(*node, budget) is Some,
            r matches Err(e) ==> self.node_error(*node, budget) == Some(e),
            r matches Ok(d) ==> d == deepest(children_of(*node), self.depths()) + 1 && forall|k: int|
                0 <= k < children_of(*node).len() ==> self.contains(#[trigger] children_of(*node)[k]),
    {
        match validate_node_shape(node, budget) {
            Ok(()) => {},
            Err(e) => {
                return Err(e);
            },
        }
        let kids = public_children(node);
        match self.check_children(&kids) {
            Ok(()) => {},
            Err(e) => {
                return Err(e);
            },
        }
        proof {
            lemma_first_handle_error_none(self.store_id(), self.terms().len(), kids@);
            assert forall|k: int| 0 <= k < kids@.len() implies self.contains(#[trigger] kids@[k]) by {
                assert(handle_error(self.store_id(), self.terms().len(), kids@[k]) is None);
            }
        }
        match node {
            TermNode::Atom(a) => {
                match validate_atom(a, budget) {
                    Ok(()) => {},
                    Err(e) => {
                        return Err(e);
                    },
                }
            },
            TermNode::Binder { kind, variable_count, bounds, .. } => {
                match validate_binder_shape(*kind, *variable_count, bounds.len()) {
                    Ok(()) => {},
                    Err(e) => {
                        return Err(e);
                    },
                }
            },
            _ => {},
        }
        let deep = self.child_depth(&kids);
        if deep == usize::MAX {
            return Err(exceeded("depth", usize::MAX));
        }
        let depth = deep + 1;
        if depth > budget.max_depth {
            return Err(exceeded("depth", budget.max_depth));
        }
        Ok(depth)
    }

    /// Append a node that the store does not hold yet, with its depth.
    #[verifier::spinoff_prover]
    fn commit(&mut self, node: TermNode, depth: usize) -> (r: u32)
        requires
            old(self).wf(),
            !old(self).holds_same(node),
            old(self).terms().len() <= u32::MAX,
            depth == deepest(children_of(node), old(self).depths()) + 1,
            forall|k: int| 0 <= k < children_of(node).len() ==> old(self).contains(#[trigger] children_of(node)[k]),
        ensures
            final(self).wf(),
            final(self).store_id() == old(self).store_id(),
            final(self).terms() == old(self).terms().push(node),
            final(self).depths() == old(self).depths().push(depth),
            old(self).symbol_table().is_prefix_of(final(self).symbol_table()),
            r == old(self).terms().len(),
    {
        let index = self.nodes.len() as u32;
        let ghost old_nodes = self.nodes@;
        let ghost old_depths = self.depths@;
        let ghost old_symbols = self.symbols@;
        match &node {
            TermNode::Atom(Atom::Symbol(v)) => {
                if !self.has_symbol(v) {
                    let bytes = logical_symbol_bytes(v);
                    proof {
                        lemma_symbols_logical_push(old_symbols, *v);
                        lemma_saturate_add(symbols_logical_bytes(old_symbols), symbol_logical_bytes(*v));
                    }
                    self.logical_symbol_bytes = self.logical_symbol_bytes.saturating_add(bytes);
                    let copy = v.clone();
                    proof {
                        lemma_symbols_logical_push(old_symbols, copy);
                        assert(symbol_logical_bytes(copy) == symbol_logical_bytes(*v));
                    }
                    self.symbols.push(copy);
                    proof {
                        assert(symbol_same(self.symbols@[old_symbols.len() as int], *v));
                    }
                }
            },
            _ => {},
        }
        let bytes = logical_node_bytes(&node);
        proof {
            lemma_nodes_logical_push(old_nodes, node);
            lemma_saturate_add(nodes_logical_bytes(old_nodes), node_logical_bytes(node));
        }
        self.logical_node_bytes = self.logical_node_bytes.saturating_add(bytes);
        self.nodes.push(node);
        self.depths.push(depth);
        proof {
            let n = old_nodes.len() as int;
            assert(self.nodes@[n] == node);
            assert forall|i: int| 0 <= i < self.terms().len() implies #[trigger] self.depths()[i] == deepest(
                children_of(self.terms()[i]),
                self.depths(),
            ) + 1 by {
                let kids = children_of(self.terms()[i]);
                if i < n {
                    assert(self.terms()[i] == old_nodes[i]);
                    assert forall|k: int| 0 <= k < kids.len() implies (#[trigger] kids[k]).position()
                        < old_depths.len() by {
                        assert(children_of(old_nodes[i])[k] == kids[k]);
                    }
                    lemma_deepest_push(kids, old_depths, depth);
                } else {
                    assert forall|k: int| 0 <= k < kids.len() implies (#[trigger] kids[k]).position()
                        < old_depths.len() by {
                        assert(old(self).contains(children_of(node)[k]));
                    }
                    lemma_deepest_push(kids, old_depths, depth);
                }
            }
            assert forall|i: int, k: int|
                0 <= i < self.terms().len() && 0 <= k < children_of(self.terms()[i]).len() implies {
                let c = #[trigger] children_of(self.terms()[i])[k];
                c.owner() == self.store_id() && c.position() < i
            } by {
                if i == n {
                    assert(old(self).contains(children_of(node)[k]));
                } else {
                    assert(self.terms()[i] == old_nodes[i]);
                }
            }
            assert forall|i: int, j: int| 0 <= i < j < self.terms().len() implies !node_same(
                #[trigger] self.terms()[i],
                #[trigger] self.terms()[j],
            ) by {
                if j == n {
                    assert(self.terms()[i] == old_nodes[i]);
                    if node_same(old_nodes[i], node) {
                        assert(old(self).holds_same(node));
                    }
                } else {
                    assert(self.terms()[i] == old_nodes[i]);
                    assert(self.terms()[j] == old_nodes[j]);
                }
            }
            assert forall|i: int| 0 <= i < self.terms().len() implies (#[trigger] self.terms()[i] matches TermNode::Atom(
                Atom::Symbol(v),
            ) ==> exists|k: int| 0 <= k < self.symbol_table().len() && symbol_same(#[trigger] self.symbol_table()[k], v)) by {
                if i < n {
                    assert(self.terms()[i] == old_nodes[i]);
                    if let TermNode::Atom(Atom::Symbol(v)) = old_nodes[i] {
                        let k = choose|k: int| 0 <= k < old_symbols.len() && symbol_same(#[trigger] old_symbols[k], v);
                        assert(self.symbol_table()[k] == old_symbols[k]);
                    }
                } else {
                    if let TermNode::Atom(Atom::Symbol(v)) = node {
                        if exists|k: int| 0 <= k < old_symbols.len() && symbol_same(#[trigger] old_symbols[k], v) {
                            let k = choose|k: int| 0 <= k < old_symbols.len() && symbol_same(#[trigger] old_symbols[k], v);
                            assert(self.symbol_table()[k] == old_symbols[k]);
                        } else {
                            assert(symbol_same(self.symbol_table()[old_symbols.len() as int], v));
                        }
                    }
                }
            }
            assert forall|a: int, b: int| 0 <= a < b < self.symbol_table().len() implies !symbol_same(
                #[trigger] self.symbol_table()[a],
                #[trigger] self.symbol_table()[b],
            ) by {
                if b >= old_symbols.len() {
                    assert(self.symbol_table()[a] == old_symbols[a]);
                    if let TermNode::Atom(Atom::Symbol(v)) = node {
                        if symbol_same(old_symbols[a], self.symbol_table()[b]) {
                            assert(symbol_same(old_symbols[a], v));
                        }
                    }
                } else {
                    assert(self.symbol_table()[a] == old_symbols[a]);
                    assert(self.symbol_table()[b] == old_symbols[b]);
                }
            }
        }
        index
    }

    /// Intern a node: the handle of the structurally same node when the
    /// store holds one, else a new handle for it. Children must be terms
    /// of this store; the node's shape, atom, binder arity, depth and the
    /// node count are held to the budget ([`TermStore::intern_error`]). A
    /// refused node leaves the store unchanged.
    pub fn intern(&mut self, node: TermNode, budget: TermBudget) -> (r: Result<TermId, TermError>)
        requires
            old(self).wf(),
        ensures
            final(self).wf(),
            final(self).store_id() == old(self).store_id(),
            r is Ok <==> old(self).intern_error(node, budget) is None,
            r matches Err(e) ==> old(self).intern_error(node, budget) == Some(e) && *final(self) == *old(self),
            r matches Ok(t) ==> final(self).contains(t) && node_same(final(self).terms()[t.position() as int], node),
            r matches Ok(t) ==> forall|u: TermId|
                #[trigger] final(self).contains(u) && node_same(final(self).terms()[u.position() as int], node) ==> u == t,
            r is Ok && old(self).holds_same(node) ==> *final(self) == *old(self),
            r is Ok && !old(self).holds_same(node) ==> final(self).terms() == old(self).terms().push(node),
            old(self).depths().is_prefix_of(final(self).depths()),
            old(self).symbol_table().is_prefix_of(final(self).symbol_table()),
    {
        let depth = match self.check_node(&node, budget) {
            Ok(d) => d,
            Err(e) => {
                return Err(e);
            },
        };
        match self.find_same(&node) {
            Some(i) => {
                proof {
                    assert(self.terms().len() <= u32::MAX + 1);
                }
                let t = self.id(i as u32);
                proof {
                    lemma_intern_idempotent(*self, node, budget, t);
                }
                return Ok(t);
            },
            None => {},
        }
        if self.nodes.len() >= budget.max_nodes {
            return Err(exceeded("nodes", budget.max_nodes));
        }
        if self.nodes.len() > 0xffff_ffffusize {
            return Err(TermError::HandleSpaceExhausted);
        }
        let ghost given = node;
        let index = self.commit(node, depth);
        proof {
            assert(self.terms()[index as int] == given);
            assert(old(self).depths().is_prefix_of(self.depths()));
        }
        let t = self.id(index);
        proof {
            lemma_node_same_reflexive(given);
            lemma_one_handle_for(*self, given, t);
        }
        Ok(t)
    }

    /// Intern an atom ([`TermStore::intern`] of `TermNode::Atom(atom)`).
    pub fn atom(&mut self, atom: Atom, budget: TermBudget) -> (r: Result<TermId, TermError>)
        requires
            old(self).wf(),
        ensures
            final(self).wf(),
            final(self).store_id() == old(self).store_id(),
            r is Ok <==> old(self).intern_error(TermNode::Atom(atom), budget) is None,
            r matches Err(e) ==> old(self).intern_error(TermNode::Atom(atom), budget) == Some(e) && *final(self)
                == *old(self),
            r matches Ok(t) ==> final(self).contains(t) && node_same(
                final(self).terms()[t.position() as int],
                TermNode::Atom(atom),
            ),
            r is Ok && old(self).holds_same(TermNode::Atom(atom)) ==> *final(self) == *old(self),
            r is Ok && !old(self).holds_same(TermNode::Atom(atom)) ==> final(self).terms() == old(self).terms().push(
                TermNode::Atom(atom),
            ),
    {
        self.intern(TermNode::Atom(atom), budget)
    }
}

/// Hash-consing: in a well-formed store two handles whose nodes are
/// structurally the same are the same handle. With [`TermStore::intern`],
/// interning a node the store already holds gives back the handle it has.
pub proof fn lemma_one_handle_per_node(store: TermStore, a: TermId, b: TermId)
    requires
        store.wf(),
        store.contains(a),
        store.contains(b),
        node_same(store.terms()[a.position() as int], store.terms()[b.position() as int]),
    ensures
        a == b,
{
    TermId::lemma_handle_identity(a, b);
    let i = a.position() as int;
    let j = b.position() as int;
    if i < j {
        assert(!node_same(store.terms()[i], store.terms()[j]));
    } else if j < i {
        lemma_node_same_symmetric(store.terms()[i], store.terms()[j]);
        assert(!node_same(store.terms()[j], store.terms()[i]));
    }
}

/// Structural sameness is symmetric.
pub proof fn lemma_node_same_symmetric(a: TermNode, b: TermNode)
    ensures
        node_same(a, b) == node_same(b, a),
{
}

/// Structural sameness is reflexive.
pub proof fn lemma_node_same_reflexive(a: TermNode)
    ensures
        node_same(a, a),
{
}

/// Structural sameness is transitive.
pub proof fn lemma_node_same_transitive(a: TermNode, b: TermNode, c: TermNode)
    requires
        node_same(a, b),
        node_same(b, c),
    ensures
        node_same(a, c),
{
}

/// The handle `t` of a well-formed store is the store's only handle whose
/// term is the same as `node`.
proof fn lemma_one_handle_for(store: TermStore, node: TermNode, t: TermId)
    requires
        store.wf(),
        store.contains(t),
        node_same(store.terms()[t.position() as int], node),
    ensures
        forall|u: TermId| #[trigger] store.contains(u) && node_same(store.terms()[u.position() as int], node) ==> u == t,
{
    assert forall|u: TermId| #[trigger] store.contains(u) && node_same(store.terms()[u.position() as int], node) implies u
        == t by {
        lemma_node_same_symmetric(store.terms()[t.position() as int], node);
        lemma_node_same_transitive(store.terms()[u.position() as int], node, store.terms()[t.position() as int]);
        lemma_one_handle_per_node(store, u, t);
    }
}

/// Interning is idempotent: once a store holds a node under handle `t`,
/// interning the node again under a budget that admits it raises no error
/// ([`TermStore::intern_error`] is `None`), so [`TermStore::intern`] leaves
/// the store as it is and answers a handle of that node, which is `t`,
/// the store's only handle for it.
pub proof fn lemma_intern_idempotent(store: TermStore, node: TermNode, budget: TermBudget, t: TermId)
    requires
        store.wf(),
        store.contains(t),
        node_same(store.terms()[t.position() as int], node),
        store.node_error(node, budget) is None,
    ensures
        store.holds_same(node),
        store.intern_error(node, budget) is None,
        forall|u: TermId| #[trigger] store.contains(u) && node_same(store.terms()[u.position() as int], node) ==> u == t,
{
    assert(node_same(store.terms()[t.position() as int], node));
    lemma_one_handle_for(store, node, t);
}

impl TermStore {
    /// The children of the term a handle names.
    #[verifier::opaque]
    pub open spec fn kids(self, t: TermId) -> Seq<TermId> {
        children_of(self.terms()[t.position() as int])
    }

    /// Does `order` occur among the first `n` items?
    pub open spec fn listed_before(order: Seq<TermId>, n: int, t: TermId) -> bool {
        exists|q: int| 0 <= q < n && order[q] == t
    }

    /// A child-first listing: terms of this store, each once, every child
    /// listed before its parent.
    pub open spec fn child_first(self, order: Seq<TermId>) -> bool {
        &&& forall|p: int| 0 <= p < order.len() ==> self.contains(#[trigger] order[p])
        &&& forall|p: int, q: int| 0 <= p < q < order.len() ==> #[trigger] order[p] != #[trigger] order[q]
        &&& forall|p: int, k: int|
            0 <= p < order.len() && 0 <= k < self.kids(order[p]).len() ==> Self::listed_before(
                order,
                p,
                #[trigger] self.kids(order[p])[k],
            )
    }

    /// The walk from `root` cannot be refused: the handle names a term of
    /// this store, the whole store fits the node budget, no term has more
    /// children than the child budget, the root is within the depth
    /// budget, and no term is a bound variable with the largest index.
    pub open spec fn fits_walk(self, root: TermId, budget: TermBudget) -> bool {
        &&& handle_error(self.store_id(), self.terms().len(), root) is None
        &&& self.terms().len() <= budget.max_nodes
        &&& forall|t: TermId| #[trigger] self.contains(t) ==> self.kids(t).len() <= budget.max_children_per_node
        &&& self.depths()[root.position() as int] <= budget.max_depth
        &&& forall|p: int|
            0 <= p < self.terms().len() ==> #[trigger] self.terms()[p] != TermNode::Atom(Atom::BoundVariable(u32::MAX))
    }

    /// A traversal of `root`: a child-first listing that ends with `root`
    /// and in which every other term is a child of a later one — so it
    /// lists exactly the terms reachable from `root`.
    pub open spec fn traversal_of(self, order: Seq<TermId>, root: TermId) -> bool {
        &&& self.child_first(order)
        &&& order.len() > 0
        &&& order.last() == root
        &&& forall|p: int| 0 <= p < order.len() - 1 ==> #[trigger] self.parent_later(order, p)
    }

    /// The term at `p` is a child of a term listed after it.
    pub open spec fn parent_later(self, order: Seq<TermId>, p: int) -> bool {
        exists|q: int, k: int| p < q < order.len() && 0 <= k < self.kids(order[q]).len() && #[trigger] self.kids(order[q])[k] == order[p]
    }

    /// The work left on a traversal stack: the children not yet visited,
    /// and one for each frame.
    pub open spec fn pending(self, terms: Seq<TermId>, next: Seq<usize>) -> nat
        decreases terms.len(),
    {
        if terms.len() == 0 || next.len() != terms.len() {
            0
        } else {
            let t = terms.last();
            self.pending(terms.drop_last(), next.drop_last()) + (self.kids(t).len() - next.last()) as nat + 1
        }
    }
}

/// The number of `false` entries.
pub open spec fn count_false(s: Seq<bool>) -> nat
    decreases s.len(),
{
    if s.len() == 0 {
        0
    } else {
        count_false(s.drop_last()) + if s.last() {
            0nat
        } else {
            1nat
        }
    }
}

proof fn lemma_count_false_all(s: Seq<bool>)
    requires
        forall|p: int| 0 <= p < s.len() ==> !#[trigger] s[p],
    ensures
        count_false(s) == s.len(),
    decreases s.len(),
{
    if s.len() > 0 {
        lemma_count_false_all(s.drop_last());
    }
}

proof fn lemma_count_false_mark(s: Seq<bool>, i: int)
    requires
        0 <= i < s.len(),
        !s[i],
    ensures
        count_false(s.update(i, true)) + 1 == count_false(s),
    decreases s.len(),
{
    let t = s.update(i, true);
    if i == s.len() - 1 {
        assert(t.drop_last() =~= s.drop_last());
    } else {
        assert(t.drop_last() =~= s.drop_last().update(i, true));
        lemma_count_false_mark(s.drop_last(), i);
    }
}

proof fn lemma_pending_advance(store: TermStore, terms: Seq<TermId>, next: Seq<usize>)
    requires
        terms.len() > 0,
        next.len() == terms.len(),
        next.last() < store.kids(terms.last()).len(),
        next.last() < usize::MAX,
    ensures
        store.pending(terms, next.update(next.len() - 1, (next.last() + 1) as usize)) + 1 == store.pending(terms, next),
{
    let n2 = next.update(next.len() - 1, (next.last() + 1) as usize);
    assert(n2.drop_last() =~= next.drop_last());
    assert(n2.last() == next.last() + 1);
}

proof fn lemma_pending_pop(store: TermStore, terms: Seq<TermId>, next: Seq<usize>)
    requires
        terms.len() > 0,
        next.len() == terms.len(),
        next.last() == store.kids(terms.last()).len(),
    ensures
        store.pending(terms.drop_last(), next.drop_last()) + 1 == store.pending(terms, next),
{
}

impl TermStore {
    /// The frames of the walk: terms of this store within the child
    /// budget, each frame's next child index within its children, frames
    /// strictly older than the frames below them, each frame the child its
    /// parent frame is walking, and the root at the bottom.
    #[verifier::opaque]
    spec fn walk_frames(self, root: TermId, budget: TermBudget, terms: Seq<TermId>, next: Seq<usize>) -> bool {
        &&& terms.len() == next.len()
        &&& forall|j: int|
            0 <= j < terms.len() ==> {
                &&& self.contains(#[trigger] terms[j])
                &&& next[j] <= self.kids(terms[j]).len()
                &&& self.kids(terms[j]).len() <= budget.max_children_per_node
            }
        &&& forall|a: int, b: int| 0 <= a < b < terms.len() ==> (#[trigger] terms[b]).position() < (#[trigger] terms[a]).position()
        &&& forall|a: int|
            0 <= a < terms.len() - 1 ==> #[trigger] next[a] >= 1 && self.kids(terms[a])[next[a] - 1] == terms[a + 1]
        &&& terms.len() > 0 ==> terms[0] == root
    }

    /// Every child a frame has passed is listed, but for the one its frame
    /// above is walking.
    #[verifier::opaque]
    spec fn walk_listed(self, out: Seq<TermId>, terms: Seq<TermId>, next: Seq<usize>) -> bool {
        forall|j: int, i: int|
            0 <= j < terms.len() && 0 <= i < next[j] && !(j + 1 < terms.len() && i == next[j] - 1)
                ==> Self::listed_before(out, out.len() as int, #[trigger] self.kids(terms[j])[i])
    }

    /// `seen` marks exactly the positions listed or framed.
    #[verifier::opaque]
    spec fn walk_seen(self, seen: Seq<bool>, out: Seq<TermId>, terms: Seq<TermId>) -> bool {
        &&& seen.len() == self.terms().len()
        &&& forall|p: int|
            0 <= p < seen.len() ==> (#[trigger] seen[p] <==> (exists|q: int| 0 <= q < out.len() && out[q].position() == p)
                || (exists|j: int| 0 <= j < terms.len() && terms[j].position() == p))
    }

    /// The listing is child-first, within the child budget, apart from the
    /// frames, and ends with the root once no frame is left.
    #[verifier::opaque]
    spec fn walk_out(self, root: TermId, budget: TermBudget, out: Seq<TermId>, terms: Seq<TermId>) -> bool {
        &&& self.child_first(out)
        &&& forall|p: int| 0 <= p < out.len() ==> self.kids(#[trigger] out[p]).len() <= budget.max_children_per_node
        &&& forall|q: int, j: int| 0 <= q < out.len() && 0 <= j < terms.len() ==> #[trigger] out[q] != #[trigger] terms[j]
        &&& terms.len() == 0 ==> out.len() > 0 && out.last() == root
    }

    /// A child of the frame `j` among those it has passed.
    spec fn framed_child(self, terms: Seq<TermId>, next: Seq<usize>, t: TermId) -> bool {
        exists|j: int, k: int| 0 <= j < terms.len() && 0 <= k < next[j] && #[trigger] self.kids(terms[j])[k] == t
    }

    /// Each listed term but the root is a child of a later listed term or
    /// of a frame.
    #[verifier::opaque]
    spec fn walk_parents(self, root: TermId, out: Seq<TermId>, terms: Seq<TermId>, next: Seq<usize>) -> bool {
        forall|p: int|
            0 <= p < out.len() && out[p] != root ==> #[trigger] self.parent_later(out, p) || self.framed_child(
                terms,
                next,
                out[p],
            )
    }

    /// The state of the child-first walk.
    spec fn walk_state(
        self,
        root: TermId,
        budget: TermBudget,
        seen: Seq<bool>,
        out: Seq<TermId>,
        terms: Seq<TermId>,
        next: Seq<usize>,
    ) -> bool {
        &&& self.contains(root)
        &&& self.walk_frames(root, budget, terms, next)
        &&& self.walk_listed(out, terms, next)
        &&& self.walk_seen(seen, out, terms)
        &&& self.walk_out(root, budget, out, terms)
        &&& self.walk_parents(root, out, terms, next)
    }

    proof fn lemma_walk_start(self, root: TermId, budget: TermBudget, seen: Seq<bool>)
        requires
            self.contains(root),
            seen.len() == self.terms().len(),
            forall|p: int| 0 <= p < seen.len() ==> !#[trigger] seen[p],
            self.kids(root).len() <= budget.max_children_per_node,
        ensures
            self.walk_state(root, budget, seen.update(root.position() as int, true), seq![], seq![root], seq![0usize]),
    {
        reveal(TermStore::walk_frames);
        reveal(TermStore::walk_listed);
        reveal(TermStore::walk_seen);
        reveal(TermStore::walk_out);
        reveal(TermStore::walk_parents);
        let s2 = seen.update(root.position() as int, true);
        let terms = seq![root];
        let e: Seq<TermId> = seq![];
        assert forall|p: int| 0 <= p < s2.len() implies (#[trigger] s2[p] <==> (exists|q: int|
            0 <= q < e.len() && e[q].position() == p) || (exists|j: int| 0 <= j < terms.len() && terms[j].position() == p)) by {
            if p == root.position() {
                assert(terms[0].position() == p);
            }
        }
    }

    /// A child already seen while walking a frame is listed: it is older
    /// than every frame, so it is not on the stack.
    proof fn lemma_walk_seen_listed(
        self,
        root: TermId,
        budget: TermBudget,
        seen: Seq<bool>,
        out: Seq<TermId>,
        terms: Seq<TermId>,
        next: Seq<usize>,
        c: TermId,
    )
        requires
            self.walk_state(root, budget, seen, out, terms, next),
            terms.len() > 0,
            self.contains(c),
            c.position() < terms.last().position(),
            seen[c.position() as int],
        ensures
            Self::listed_before(out, out.len() as int, c),
    {
        reveal(TermStore::walk_frames);
        reveal(TermStore::walk_seen);
        reveal(TermStore::walk_out);
        let top = terms.len() - 1;
        assert(seen[c.position() as int]);
        if exists|j: int| 0 <= j < terms.len() && terms[j].position() == c.position() {
            let j = choose|j: int| 0 <= j < terms.len() && terms[j].position() == c.position();
            if j < top {
                assert(terms[top].position() < terms[j].position());
            }
            assert(false);
        }
        let q = choose|q: int| 0 <= q < out.len() && out[q].position() == c.position();
        assert(self.contains(out[q]));
        TermId::lemma_handle_identity(out[q], c);
    }

    proof fn lemma_skip_frames(self, root: TermId, budget: TermBudget, terms: Seq<TermId>, next: Seq<usize>)
        requires
            self.walk_frames(root, budget, terms, next),
            terms.len() > 0,
            next.last() < usize::MAX,
            next.last() < self.kids(terms.last()).len(),
        ensures
            self.walk_frames(root, budget, terms, next.update(next.len() - 1, (next.last() + 1) as usize)),
    {
        reveal(TermStore::walk_frames);
        let top = terms.len() - 1;
        let n2 = next.update(top, (next.last() + 1) as usize);
        assert(n2[top] == next[top] + 1);
        assert forall|j: int|
            0 <= j < terms.len() implies {
            &&& self.contains(#[trigger] terms[j])
            &&& n2[j] <= self.kids(terms[j]).len()
            &&& self.kids(terms[j]).len() <= budget.max_children_per_node
        } by {
            if j < top {
                assert(n2[j] == next[j]);
            }
        }
        assert forall|a: int| 0 <= a < terms.len() - 1 implies #[trigger] n2[a] >= 1 && self.kids(terms[a])[n2[a] - 1]
            == terms[a + 1] by {
            assert(n2[a] == next[a]);
        }
    }

    proof fn lemma_skip_listed(self, out: Seq<TermId>, terms: Seq<TermId>, next: Seq<usize>, c: TermId)
        requires
            self.walk_listed(out, terms, next),
            terms.len() > 0,
            terms.len() == next.len(),
            next.last() < usize::MAX,
            self.kids(terms.last())[next.last() as int] == c,
            Self::listed_before(out, out.len() as int, c),
        ensures
            self.walk_listed(out, terms, next.update(next.len() - 1, (next.last() + 1) as usize)),
    {
        reveal(TermStore::walk_listed);
        let top = terms.len() - 1;
        let n2 = next.update(top, (next.last() + 1) as usize);
        assert(n2[top] == next[top] + 1);
        assert forall|j: int, i: int|
            0 <= j < terms.len() && 0 <= i < n2[j] && !(j + 1 < terms.len() && i == n2[j] - 1) implies Self::listed_before(
            out,
            out.len() as int,
            #[trigger] self.kids(terms[j])[i],
        ) by {
            if j < top {
                assert(n2[j] == next[j]);
            }
        }
    }

    proof fn lemma_skip_parents(self, root: TermId, out: Seq<TermId>, terms: Seq<TermId>, next: Seq<usize>)
        requires
            self.walk_parents(root, out, terms, next),
            terms.len() > 0,
            terms.len() == next.len(),
            next.last() < usize::MAX,
        ensures
            self.walk_parents(root, out, terms, next.update(next.len() - 1, (next.last() + 1) as usize)),
    {
        reveal(TermStore::walk_parents);
        let top = terms.len() - 1;
        let n2 = next.update(top, (next.last() + 1) as usize);
        assert forall|p: int| 0 <= p < out.len() && out[p] != root implies #[trigger] self.parent_later(out, p)
            || self.framed_child(terms, n2, out[p]) by {
            if !self.parent_later(out, p) {
                assert(self.framed_child(terms, next, out[p]));
                let (j, k) = choose|j: int, k: int|
                    0 <= j < terms.len() && 0 <= k < next[j] && #[trigger] self.kids(terms[j])[k] == out[p];
                assert(k < n2[j]);
            }
        }
    }

    proof fn lemma_walk_skip(
        self,
        root: TermId,
        budget: TermBudget,
        seen: Seq<bool>,
        out: Seq<TermId>,
        terms: Seq<TermId>,
        next: Seq<usize>,
        c: TermId,
    )
        requires
            self.walk_state(root, budget, seen, out, terms, next),
            terms.len() > 0,
            next.last() < usize::MAX,
            next.last() < self.kids(terms.last()).len(),
            self.kids(terms.last())[next.last() as int] == c,
            Self::listed_before(out, out.len() as int, c),
        ensures
            self.walk_state(root, budget, seen, out, terms, next.update(next.len() - 1, (next.last() + 1) as usize)),
    {
        assert(terms.len() == next.len()) by {
            reveal(TermStore::walk_frames);
        }
        self.lemma_skip_frames(root, budget, terms, next);
        self.lemma_skip_listed(out, terms, next, c);
        self.lemma_skip_parents(root, out, terms, next);
    }

    #[verifier::spinoff_prover]
    proof fn lemma_walk_visit(
        self,
        root: TermId,
        budget: TermBudget,
        seen: Seq<bool>,
        out: Seq<TermId>,
        terms: Seq<TermId>,
        next: Seq<usize>,
        c: TermId,
    )
        requires
            self.contains(c),
            c.position() < terms.last().position(),
            self.walk_state(root, budget, seen, out, terms, next),
            terms.len() > 0,
            next.last() < usize::MAX,
            next.last() < self.kids(terms.last()).len(),
            self.kids(terms.last())[next.last() as int] == c,
            !seen[c.position() as int],
            self.kids(c).len() <= budget.max_children_per_node,
        ensures
            self.walk_state(
                root,
                budget,
                seen.update(c.position() as int, true),
                out,
                terms.push(c),
                next.update(next.len() - 1, (next.last() + 1) as usize).push(0usize),
            ),
    {
        reveal(TermStore::walk_frames);
        reveal(TermStore::walk_listed);
        reveal(TermStore::walk_seen);
        reveal(TermStore::walk_out);
        reveal(TermStore::walk_parents);
        let top = terms.len() - 1;
        let t = terms[top];
        let s2 = seen.update(c.position() as int, true);
        let t2 = terms.push(c);
        let n2 = next.update(top, (next.last() + 1) as usize).push(0usize);
        assert(n2[top] == next[top] + 1);
        assert forall|j: int|
            0 <= j < t2.len() implies {
            &&& self.contains(#[trigger] t2[j])
            &&& n2[j] <= self.kids(t2[j]).len()
            &&& self.kids(t2[j]).len() <= budget.max_children_per_node
        } by {
            if j < top {
                assert(t2[j] == terms[j] && n2[j] == next[j]);
            } else if j == top {
                assert(t2[j] == terms[j]);
            }
        }
        assert forall|a: int, b: int| 0 <= a < b < t2.len() implies (#[trigger] t2[b]).position() < (
        #[trigger] t2[a]).position() by {
            if b == t2.len() - 1 {
                if a < top {
                    assert(terms[top].position() < terms[a].position());
                }
                assert(t2[a] == terms[a]);
            } else {
                assert(t2[a] == terms[a] && t2[b] == terms[b]);
            }
        }
        assert forall|a: int| 0 <= a < t2.len() - 1 implies #[trigger] n2[a] >= 1 && self.kids(t2[a])[n2[a] - 1]
            == t2[a + 1] by {
            assert(t2[a] == terms[a]);
            if a < top {
                assert(n2[a] == next[a]);
                assert(t2[a + 1] == terms[a + 1]);
            }
        }
        if t2.len() > 0 {
            assert(t2[0] == terms[0]);
        }
        assert forall|j: int, i: int|
            0 <= j < t2.len() && 0 <= i < n2[j] && !(j + 1 < t2.len() && i == n2[j] - 1) implies Self::listed_before(
            out,
            out.len() as int,
            #[trigger] self.kids(t2[j])[i],
        ) by {
            assert(j < t2.len() - 1);
            assert(t2[j] == terms[j]);
            if j < top {
                assert(n2[j] == next[j]);
            }
        }
        assert forall|p: int|
            0 <= p < s2.len() implies (#[trigger] s2[p] <==> (exists|q: int| 0 <= q < out.len() && out[q].position() == p)
            || (exists|j: int| 0 <= j < t2.len() && t2[j].position() == p)) by {
            if p == c.position() {
                assert(t2[t2.len() - 1].position() == p);
            } else {
                assert(s2[p] == seen[p]);
                if exists|j: int| 0 <= j < terms.len() && terms[j].position() == p {
                    let j = choose|j: int| 0 <= j < terms.len() && terms[j].position() == p;
                    assert(t2[j] == terms[j]);
                }
                if exists|j: int| 0 <= j < t2.len() && t2[j].position() == p {
                    let j = choose|j: int| 0 <= j < t2.len() && t2[j].position() == p;
                    assert(t2[j] == terms[j]);
                }
            }
        }
        assert forall|q: int, j: int| 0 <= q < out.len() && 0 <= j < t2.len() implies #[trigger] out[q]
            != #[trigger] t2[j] by {
            if j == t2.len() - 1 {
                if out[q] == c {
                    assert(out[q].position() == c.position());
                }
            } else {
                assert(t2[j] == terms[j]);
            }
        }
        assert forall|p: int| 0 <= p < out.len() && out[p] != root implies #[trigger] self.parent_later(out, p)
            || self.framed_child(t2, n2, out[p]) by {
            if !self.parent_later(out, p) {
                assert(self.framed_child(terms, next, out[p]));
                let (j, k) = choose|j: int, k: int|
                    0 <= j < terms.len() && 0 <= k < next[j] && #[trigger] self.kids(terms[j])[k] == out[p];
                assert(t2[j] == terms[j]);
                assert(k < n2[j]);
            }
        }
    }

    #[verifier::spinoff_prover]
    proof fn lemma_walk_pop(
        self,
        root: TermId,
        budget: TermBudget,
        seen: Seq<bool>,
        out: Seq<TermId>,
        terms: Seq<TermId>,
        next: Seq<usize>,
    )
        requires
            self.walk_state(root, budget, seen, out, terms, next),
            terms.len() > 0,
            next.last() == self.kids(terms.last()).len(),
        ensures
            self.walk_state(root, budget, seen, out.push(terms.last()), terms.drop_last(), next.drop_last()),
    {
        reveal(TermStore::walk_frames);
        reveal(TermStore::walk_listed);
        reveal(TermStore::walk_seen);
        reveal(TermStore::walk_out);
        reveal(TermStore::walk_parents);
        let t = terms.last();
        let output = out.push(t);
        let st = terms.drop_last();
        let sn = next.drop_last();
        let p0 = out.len() as int;
        assert forall|j: int|
            0 <= j < st.len() implies {
            &&& self.contains(#[trigger] st[j])
            &&& sn[j] <= self.kids(st[j]).len()
            &&& self.kids(st[j]).len() <= budget.max_children_per_node
        } by {
            assert(st[j] == terms[j] && sn[j] == next[j]);
        }
        assert forall|a: int, b: int| 0 <= a < b < st.len() implies (#[trigger] st[b]).position() < (
        #[trigger] st[a]).position() by {
            assert(st[a] == terms[a] && st[b] == terms[b]);
        }
        assert forall|a: int| 0 <= a < st.len() - 1 implies #[trigger] sn[a] >= 1 && self.kids(st[a])[sn[a] - 1]
            == st[a + 1] by {
            assert(st[a] == terms[a] && st[a + 1] == terms[a + 1] && sn[a] == next[a]);
            assert(next[a] >= 1);
        }
        if st.len() == 0 {
            assert(t == terms[0]);
        } else {
            assert(st[0] == terms[0]);
        }
        assert forall|j: int, i: int|
            0 <= j < st.len() && 0 <= i < sn[j] && !(j + 1 < st.len() && i == sn[j] - 1) implies Self::listed_before(
            output,
            output.len() as int,
            #[trigger] self.kids(st[j])[i],
        ) by {
            assert(st[j] == terms[j]);
            assert(sn[j] == next[j]);
            if j + 1 == terms.len() - 1 && i == next[j] - 1 {
                assert(self.kids(terms[j])[next[j] - 1] == terms[j + 1]);
                assert(output[p0] == t);
            } else {
                let q = choose|q: int| 0 <= q < p0 && out[q] == self.kids(terms[j])[i];
                assert(output[q] == out[q]);
            }
        }
        assert forall|p: int|
            0 <= p < seen.len() implies (#[trigger] seen[p] <==> (exists|q: int|
            0 <= q < output.len() && output[q].position() == p) || (exists|j: int|
            0 <= j < st.len() && st[j].position() == p)) by {
            if seen[p] {
                if exists|q: int| 0 <= q < out.len() && out[q].position() == p {
                    let q = choose|q: int| 0 <= q < out.len() && out[q].position() == p;
                    assert(output[q] == out[q]);
                } else {
                    let j = choose|j: int| 0 <= j < terms.len() && terms[j].position() == p;
                    if j == terms.len() - 1 {
                        assert(output[p0].position() == p);
                    } else {
                        assert(st[j] == terms[j]);
                    }
                }
            }
            if exists|q: int| 0 <= q < output.len() && output[q].position() == p {
                let q = choose|q: int| 0 <= q < output.len() && output[q].position() == p;
                if q < p0 {
                    assert(out[q] == output[q]);
                } else {
                    assert(terms[terms.len() - 1].position() == p);
                }
            }
            if exists|j: int| 0 <= j < st.len() && st[j].position() == p {
                let j = choose|j: int| 0 <= j < st.len() && st[j].position() == p;
                assert(terms[j] == st[j]);
            }
        }
        assert forall|p: int, k2: int|
            0 <= p < output.len() && 0 <= k2 < self.kids(output[p]).len() implies Self::listed_before(
            output,
            p,
            #[trigger] self.kids(output[p])[k2],
        ) by {
            if p < p0 {
                assert(output[p] == out[p]);
                let q = choose|q: int| 0 <= q < p && out[q] == self.kids(out[p])[k2];
                assert(output[q] == out[q]);
            } else {
                let j = terms.len() - 1;
                assert(terms[j] == t);
                let q = choose|q: int| 0 <= q < p0 && out[q] == self.kids(terms[j])[k2];
                assert(output[q] == out[q]);
            }
        }
        assert forall|p: int, q: int| 0 <= p < q < output.len() implies #[trigger] output[p] != #[trigger] output[q] by {
            if q == p0 {
                assert(out[p] != terms[terms.len() - 1]);
            } else {
                assert(output[p] == out[p]);
                assert(output[q] == out[q]);
            }
        }
        assert forall|p: int| 0 <= p < output.len() implies self.contains(#[trigger] output[p]) by {
            if p < p0 {
                assert(output[p] == out[p]);
            } else {
                assert(terms[terms.len() - 1] == t);
            }
        }
        assert forall|q: int, j: int| 0 <= q < output.len() && 0 <= j < st.len() implies #[trigger] output[q]
            != #[trigger] st[j] by {
            assert(st[j] == terms[j]);
            if q == p0 {
                assert(terms[terms.len() - 1].position() < terms[j].position());
            } else {
                assert(output[q] == out[q]);
            }
        }
        assert forall|p: int| 0 <= p < output.len() implies self.kids(#[trigger] output[p]).len()
            <= budget.max_children_per_node by {
            if p < p0 {
                assert(output[p] == out[p]);
            } else {
                assert(terms[terms.len() - 1] == t);
            }
        }
        assert forall|p: int| 0 <= p < output.len() && output[p] != root implies #[trigger] self.parent_later(output, p)
            || self.framed_child(st, sn, output[p]) by {
            if p < p0 {
                assert(output[p] == out[p]);
                if self.parent_later(out, p) {
                    let (q, k2) = choose|q: int, k2: int|
                        p < q < out.len() && 0 <= k2 < self.kids(out[q]).len() && #[trigger] self.kids(out[q])[k2] == out[p];
                    assert(output[q] == out[q]);
                } else {
                    assert(self.framed_child(terms, next, out[p]));
                    let (j, k2) = choose|j: int, k2: int|
                        0 <= j < terms.len() && 0 <= k2 < next[j] && #[trigger] self.kids(terms[j])[k2] == out[p];
                    if j == terms.len() - 1 {
                        assert(output[p0] == terms[j]);
                        assert(self.kids(output[p0])[k2] == output[p]);
                    } else {
                        assert(st[j] == terms[j]);
                        assert(sn[j] == next[j]);
                    }
                }
            } else {
                let j = terms.len() - 1;
                assert(j > 0);
                assert(self.kids(terms[j - 1])[next[j - 1] - 1] == terms[j]);
                assert(st[j - 1] == terms[j - 1]);
                assert(sn[j - 1] == next[j - 1]);
                assert(self.kids(st[j - 1])[sn[j - 1] - 1] == output[p]);
            }
        }
    }

    proof fn lemma_walk_done(self, root: TermId, budget: TermBudget, seen: Seq<bool>, out: Seq<TermId>)
        requires
            self.walk_state(root, budget, seen, out, seq![], seq![]),
        ensures
            self.traversal_of(out, root),
            forall|p: int| 0 <= p < out.len() ==> self.kids(#[trigger] out[p]).len() <= budget.max_children_per_node,
    {
        reveal(TermStore::walk_out);
        reveal(TermStore::walk_parents);
        let e: Seq<TermId> = seq![];
        let z: Seq<usize> = seq![];
        assert(out.len() > 0 && out.last() == root);
        assert forall|p: int| 0 <= p < out.len() - 1 implies #[trigger] self.parent_later(out, p) by {
            assert(out[p] != out[out.len() - 1]);
            assert(out[p] != root);
            assert(!self.framed_child(e, z, out[p]));
        }
    }

    /// A deterministic child-first walk over the terms reachable from
    /// `root`: children in their structural order, each term once, a term
    /// right after its last unvisited child. Refused for a root that is
    /// not a term of this store, and when the walk meets more terms than
    /// the node budget, a term with more children than the child budget,
    /// or a root deeper than the depth budget.
    #[verifier::rlimit(40)]
    #[verifier::spinoff_prover]
    pub fn topological(&self, root: TermId, budget: TermBudget) -> (r: Result<Vec<TermId>, TermError>)
        requires
            self.wf(),
        ensures
            handle_error(self.store_id(), self.terms().len(), root) is Some ==> r == Err::<Vec<TermId>, TermError>(
                handle_error(self.store_id(), self.terms().len(), root).unwrap(),
            ),
            r matches Ok(order) ==> {
                &&& self.traversal_of(order@, root)
                &&& order@.len() <= budget.max_nodes
                &&& forall|p: int|
                    0 <= p < order@.len() ==> self.kids(#[trigger] order@[p]).len() <= budget.max_children_per_node
                &&& self.depths()[root.position() as int] <= budget.max_depth
            },
            r matches Err(e) ==> handle_error(self.store_id(), self.terms().len(), root) == Some(e) || e == (
            TermError::BudgetExceeded { resource: "nodes", limit: budget.max_nodes }) || e == (
            TermError::BudgetExceeded { resource: "children", limit: budget.max_children_per_node }) || (e == (
            TermError::BudgetExceeded { resource: "depth", limit: budget.max_depth }) && self.depths()[root.position() as int]
                > budget.max_depth),
            r == Err::<Vec<TermId>, TermError>(TermError::BudgetExceeded { resource: "nodes", limit: budget.max_nodes })
                ==> self.terms().len() > budget.max_nodes,
            r == Err::<Vec<TermId>, TermError>(
                TermError::BudgetExceeded { resource: "children", limit: budget.max_children_per_node },
            ) ==> exists|t: TermId| #[trigger] self.contains(t) && self.kids(t).len() > budget.max_children_per_node,
            handle_error(self.store_id(), self.terms().len(), root) is None && self.terms().len() <= budget.max_nodes
                && (forall|t: TermId| #[trigger] self.contains(t) ==> self.kids(t).len() <= budget.max_children_per_node)
                && self.depths()[root.position() as int] <= budget.max_depth ==> r is Ok,
    {
        proof {
            reveal(TermStore::kids);
            reveal_strlit("nodes");
            reveal_strlit("children");
            reveal_strlit("depth");
        }
        match self.get(root) {
            Ok(_) => {},
            Err(e) => {
                return Err(e);
            },
        }
        let n = self.nodes.len();
        let mut seen: Vec<bool> = Vec::new();
        while seen.len() < n
            invariant
                seen@.len() <= n,
                forall|p: int| 0 <= p < seen@.len() ==> !#[trigger] seen@[p],
            decreases n - seen@.len(),
        {
            seen.push(false);
        }
        proof {
            lemma_count_false_all(seen@);
        }
        if budget.max_nodes == 0 {
            return Err(exceeded("nodes", budget.max_nodes));
        }
        let root_kids = public_children(&self.nodes[root.index()]);
        if root_kids.len() > budget.max_children_per_node {
            proof {
                assert(self.contains(root));
                assert(self.kids(root) == root_kids@);
            }
            return Err(exceeded("children", budget.max_children_per_node));
        }
        proof {
            self.lemma_walk_start(root, budget, seen@);
            lemma_count_false_mark(seen@, root.position() as int);
        }
        seen.set(root.index(), true);
        let mut count: usize = 1;
        let mut output: Vec<TermId> = Vec::new();
        let mut st_terms: Vec<TermId> = Vec::new();
        let mut st_next: Vec<usize> = Vec::new();
        let mut st_kids: Vec<Vec<TermId>> = Vec::new();
        st_terms.push(root);
        st_next.push(0);
        st_kids.push(root_kids);
        proof {
            assert(st_terms@ =~= seq![root]);
            assert(st_next@ =~= seq![0usize]);
            assert(output@ =~= seq![]);
        }
        while st_terms.len() > 0
            invariant
                self.wf(),
                n == self.terms().len(),
                seen@.len() == n,
                self.walk_state(root, budget, seen@, output@, st_terms@, st_next@),
                st_terms@.len() == st_next@.len(),
                st_terms@.len() == st_kids@.len(),
                forall|j: int|
                    0 <= j < st_terms@.len() ==> #[trigger] st_kids@[j]@ == self.kids(st_terms@[j]) && self.contains(
                        st_terms@[j],
                    ),
                count == output@.len() + st_terms@.len(),
                count <= budget.max_nodes,
                count + count_false(seen@) == n,
            decreases count_false(seen@), self.pending(st_terms@, st_next@),
        {
            let top = st_terms.len() - 1;
            let t = st_terms[top];
            let k = st_next[top];
            proof {
                reveal(TermStore::walk_frames);
                assert(st_kids@[top as int]@ == self.kids(t));
            }
            if k < st_kids[top].len() {
                let c = st_kids[top][k];
                proof {
                    reveal(TermStore::kids);
                    assert(self.kids(t)[k as int] == c);
                    assert(children_of(self.terms()[t.position() as int])[k as int] == c);
                    lemma_pending_advance(*self, st_terms@, st_next@);
                }
                if seen[c.index()] {
                    proof {
                        assert(self.contains(t));
                        assert(self.contains(c));
                        self.lemma_walk_seen_listed(root, budget, seen@, output@, st_terms@, st_next@, c);
                        self.lemma_walk_skip(root, budget, seen@, output@, st_terms@, st_next@, c);
                    }
                    st_next.set(top, k + 1);
                } else {
                    if count >= budget.max_nodes {
                        proof {
                            lemma_count_false_mark(seen@, c.position() as int);
                        }
                        return Err(exceeded("nodes", budget.max_nodes));
                    }
                    let ckids = public_children(&self.nodes[c.index()]);
                    if ckids.len() > budget.max_children_per_node {
                        proof {
                            assert(self.contains(c));
                            assert(self.kids(c) == ckids@);
                        }
                        return Err(exceeded("children", budget.max_children_per_node));
                    }
                    proof {
                        assert(self.contains(t));
                        assert(self.contains(c));
                        self.lemma_walk_visit(root, budget, seen@, output@, st_terms@, st_next@, c);
                        lemma_count_false_mark(seen@, c.position() as int);
                    }
                    st_next.set(top, k + 1);
                    seen.set(c.index(), true);
                    count = count + 1;
                    st_terms.push(c);
                    st_next.push(0);
                    st_kids.push(ckids);
                    proof {
                        assert forall|j: int|
                            0 <= j < st_terms@.len() implies #[trigger] st_kids@[j]@ == self.kids(st_terms@[j])
                            && self.contains(st_terms@[j]) by {
                            if j == st_terms@.len() - 1 {
                                assert(self.contains(c));
                            }
                        }
                    }
                }
            } else {
                let ghost kids_before = st_kids@;
                proof {
                    self.lemma_walk_pop(root, budget, seen@, output@, st_terms@, st_next@);
                    lemma_pending_pop(*self, st_terms@, st_next@);
                }
                st_terms.pop();
                st_next.pop();
                st_kids.pop();
                output.push(t);
                proof {
                    assert forall|j: int|
                        0 <= j < st_terms@.len() implies #[trigger] st_kids@[j]@ == self.kids(st_terms@[j])
                        && self.contains(st_terms@[j]) by {
                        assert(st_kids@[j] == kids_before[j]);
                    }
                }
            }
        }
        proof {
            assert(st_terms@ =~= seq![]);
            assert(st_next@ =~= seq![]);
            self.lemma_walk_done(root, budget, seen@, output@);
        }
        if self.depths[root.index()] > budget.max_depth {
            return Err(exceeded("depth", budget.max_depth));
        }
        Ok(output)
    }
}

/// The schema header of the canonical wire: `RESOLVENT-TERM`, a NUL, and
/// the format version `1`.
pub open spec fn wire_header() -> Seq<u8> {
    seq![82u8, 69, 83, 79, 76, 86, 69, 78, 84, 45, 84, 69, 82, 77, 0, 1]
}

fn header_bytes() -> (r: Vec<u8>)
    ensures
        r@ == wire_header(),
{
    let r: Vec<u8> = vec![82u8, 69, 83, 79, 76, 86, 69, 78, 84, 45, 84, 69, 82, 77, 0, 1];
    proof {
        assert(r@ =~= wire_header());
    }
    r
}

impl TermStore {
    /// How many binders above the term at position `i` its free de Bruijn
    /// indices reach: one past a bound variable's index; for a binder, the
    /// most of its bounds and of its body less the variables it binds; for
    /// any other node, the most of its children.
    pub open spec fn escape(self, i: nat) -> nat
        decreases i + 1, 0nat,
    {
        if i < self.terms().len() {
            match self.terms()[i as int] {
                TermNode::Atom(Atom::BoundVariable(v)) => v as nat + 1,
                TermNode::Binder { variable_count, bounds, body, .. } => {
                    let b = self.max_escape(i, bounds@);
                    let d = if body.position() < i {
                        self.escape(body.position())
                    } else {
                        0
                    };
                    let inner = if d >= variable_count {
                        (d - variable_count) as nat
                    } else {
                        0
                    };
                    if b >= inner {
                        b
                    } else {
                        inner
                    }
                },
                n => self.max_escape(i, children_of(n)),
            }
        } else {
            0
        }
    }

    /// The most [`TermStore::escape`] among `kids`, children of the term at
    /// position `i`.
    pub open spec fn max_escape(self, i: nat, kids: Seq<TermId>) -> nat
        decreases i, kids.len(),
    {
        if kids.len() == 0 {
            0
        } else {
            let m = self.max_escape(i, kids.drop_last());
            let c = kids.last().position();
            let e = if c < i {
                self.escape(c)
            } else {
                0
            };
            if m >= e {
                m
            } else {
                e
            }
        }
    }

    /// The wires of the listed nodes, in order.
    pub open spec fn nodes_wire(self, order: Seq<TermId>, k: int) -> Seq<u8>
        decreases k,
    {
        if k <= 0 {
            seq![]
        } else {
            self.nodes_wire(order, k - 1) + node_wire(order, self.terms()[order[k - 1].position() as int])
        }
    }

    /// The canonical wire of a listing: the header, the node count, each
    /// node against the listing, and the index of the root (the last).
    pub open spec fn canonical_wire(self, order: Seq<TermId>) -> Seq<u8> {
        wire_header() + varint_bytes(order.len()) + self.nodes_wire(order, order.len() as int) + varint_bytes(
            (order.len() - 1) as nat,
        )
    }
}

impl TermStore {
    /// The most needed depth among children whose needs are known.
    fn max_need(&self, need: &Vec<u32>, kids: &Vec<TermId>, Ghost(i): Ghost<nat>) -> (r: u32)
        requires
            forall|k: int|
                0 <= k < kids@.len() ==> {
                    let c = #[trigger] kids@[k];
                    &&& c.position() < need@.len()
                    &&& c.position() < i
                    &&& need@[c.position() as int] == self.escape(c.position())
                },
        ensures
            r == self.max_escape(i, kids@),
    {
        let mut best: u32 = 0;
        let mut k: usize = 0;
        while k < kids.len()
            invariant
                k <= kids@.len(),
                forall|k: int|
                    0 <= k < kids@.len() ==> {
                        let c = #[trigger] kids@[k];
                        &&& c.position() < need@.len()
                        &&& c.position() < i
                        &&& need@[c.position() as int] == self.escape(c.position())
                    },
                best == self.max_escape(i, kids@.subrange(0, k as int)),
            decreases kids@.len() - k,
        {
            let c = kids[k];
            proof {
                let sub = kids@.subrange(0, k + 1);
                assert(sub.drop_last() =~= kids@.subrange(0, k as int));
                assert(sub.last() == c);
            }
            let e = need[c.index()];
            if e > best {
                best = e;
            }
            k = k + 1;
        }
        proof {
            assert(kids@.subrange(0, kids@.len() as int) =~= kids@);
        }
        best
    }

    /// The escape depth of the last listed term, computed along a
    /// child-first listing; refused when a listed bound variable has the
    /// largest index, whose escape does not fit.
    #[verifier::spinoff_prover]
    fn escape_along(&self, order: &Vec<TermId>) -> (r: Result<u32, TermError>)
        requires
            self.wf(),
            self.child_first(order@),
            order@.len() > 0,
        ensures
            r matches Ok(v) ==> v == self.escape(order@.last().position()),
            r is Err ==> r == Err::<u32, TermError>(TermError::InvalidBinder("bound-variable depth overflow"))
                && exists|p: int|
                0 <= p < order@.len() && self.terms()[(#[trigger] order@[p]).position() as int] == TermNode::Atom(
                    Atom::BoundVariable(u32::MAX),
                ),
    {
        let n = self.nodes.len();
        let mut need: Vec<u32> = Vec::new();
        while need.len() < n
            invariant
                need@.len() <= n,
            decreases n - need@.len(),
        {
            need.push(0);
        }
        let mut p: usize = 0;
        while p < order.len()
            invariant
                self.wf(),
                self.child_first(order@),
                n == self.terms().len(),
                need@.len() == n,
                p <= order@.len(),
                forall|q: int|
                    0 <= q < p ==> need@[(#[trigger] order@[q]).position() as int] == self.escape(order@[q].position()),
            decreases order@.len() - p,
        {
            let t = order[p];
            let ghost i = t.position();
            proof {
                assert(self.contains(order@[p as int]));
                reveal(TermStore::kids);
            }
            let node = &self.nodes[t.index()];
            let kids = public_children(node);
            proof {
                assert forall|k: int| 0 <= k < kids@.len() implies {
                    let c = #[trigger] kids@[k];
                    &&& c.position() < need@.len()
                    &&& c.position() < i
                    &&& need@[c.position() as int] == self.escape(c.position())
                } by {
                    assert(self.kids(order@[p as int])[k] == kids@[k]);
                    let q = choose|q: int| 0 <= q < p && order@[q] == self.kids(order@[p as int])[k];
                    assert(children_of(self.terms()[i as int])[k] == kids@[k]);
                }
            }
            let value: u32 = match node {
                TermNode::Atom(Atom::BoundVariable(v)) => {
                    if *v == u32::MAX {
                        proof {
                            assert(self.terms()[order@[p as int].position() as int] == TermNode::Atom(
                                Atom::BoundVariable(u32::MAX),
                            ));
                        }
                        return Err(TermError::InvalidBinder("bound-variable depth overflow"));
                    }
                    *v + 1
                },
                TermNode::Binder { variable_count, bounds, body, .. } => {
                    proof {
                        assert forall|k: int| 0 <= k < bounds@.len() implies {
                            let c = #[trigger] bounds@[k];
                            &&& c.position() < need@.len()
                            &&& c.position() < i
                            &&& need@[c.position() as int] == self.escape(c.position())
                        } by {
                            assert(kids@[k] == bounds@[k]);
                        }
                        assert(kids@[bounds@.len() as int] == *body);
                    }
                    let b = self.max_need(&need, bounds, Ghost(i));
                    let d = need[body.index()];
                    let inner = d.saturating_sub(*variable_count);
                    if b >= inner {
                        b
                    } else {
                        inner
                    }
                },
                _ => self.max_need(&need, &kids, Ghost(i)),
            };
            proof {
                assert(value == self.escape(i));
            }
            need.set(t.index(), value);
            proof {
                assert forall|q: int| 0 <= q < p + 1 implies need@[(#[trigger] order@[q]).position() as int] == self.escape(
                    order@[q].position(),
                ) by {
                    if q < p {
                        assert(order@[q] != order@[p as int]);
                        assert(self.contains(order@[q]));
                        TermId::lemma_handle_identity(order@[q], order@[p as int]);
                    }
                }
            }
            p = p + 1;
        }
        let last = order[order.len() - 1];
        proof {
            assert(need@[order@.last().position() as int] == self.escape(order@.last().position()));
        }
        Ok(need[last.index()])
    }
}

impl TermStore {
    /// The canonical wire of the term at `root`: the schema header, the
    /// number of terms, each term of the child-first walk
    /// ([`TermStore::topological`]) encoded against the walk, and the index
    /// of the root. Refused when the walk is refused, when a bound
    /// variable escapes the root or has the largest index, and when the
    /// wire would pass the wire budget.
    #[verifier::spinoff_prover]
    pub fn canonical_bytes(&self, root: TermId, budget: TermBudget) -> (r: Result<Vec<u8>, TermError>)
        requires
            self.wf(),
        ensures
            handle_error(self.store_id(), self.terms().len(), root) is Some ==> r == Err::<Vec<u8>, TermError>(
                handle_error(self.store_id(), self.terms().len(), root).unwrap(),
            ),
            r matches Ok(b) ==> exists|order: Seq<TermId>|
                #[trigger] self.traversal_of(order, root) && order.len() <= budget.max_nodes && b@
                    == self.canonical_wire(order),
            r matches Ok(b) ==> self.escape(root.position()) == 0 && b@.len() <= budget.max_wire_bytes,
            r == Err::<Vec<u8>, TermError>(TermError::InvalidBinder(
                "canonical roots may not contain escaping de Bruijn indices",
            )) ==> self.escape(root.position()) > 0,
            r == Err::<Vec<u8>, TermError>(TermError::BudgetExceeded { resource: "wire bytes", limit: budget.max_wire_bytes })
                ==> exists|order: Seq<TermId>| #[trigger] self.traversal_of(order, root) && self.canonical_wire(order).len()
                > budget.max_wire_bytes,
            self.fits_walk(root, budget) && self.escape(root.position()) == 0 && (forall|order: Seq<TermId>|
                #[trigger] self.traversal_of(order, root) ==> self.canonical_wire(order).len() <= budget.max_wire_bytes) ==> r is Ok,
    {
        let order = match self.topological(root, budget) {
            Ok(o) => o,
            Err(e) => {
                return Err(e);
            },
        };
        let need = match self.escape_along(&order) {
            Ok(v) => v,
            Err(e) => {
                proof {
                    if self.fits_walk(root, budget) {
                        let p = choose|p: int|
                            0 <= p < order@.len() && self.terms()[(#[trigger] order@[p]).position() as int] == TermNode::Atom(
                                Atom::BoundVariable(u32::MAX),
                            );
                        assert(self.contains(order@[p]));
                        assert(self.terms()[order@[p].position() as int] != TermNode::Atom(Atom::BoundVariable(u32::MAX)));
                    }
                }
                return Err(e);
            },
        };
        if need != 0 {
            return Err(TermError::InvalidBinder("canonical roots may not contain escaping de Bruijn indices"));
        }
        let n = self.nodes.len();
        let mut ids: Vec<u64> = Vec::new();
        while ids.len() < n
            invariant
                ids@.len() <= n,
            decreases n - ids@.len(),
        {
            ids.push(0);
        }
        let mut p: usize = 0;
        while p < order.len()
            invariant
                self.wf(),
                self.traversal_of(order@, root),
                n == self.terms().len(),
                ids@.len() == n,
                p <= order@.len(),
                forall|q: int| 0 <= q < p ==> ids@[(#[trigger] order@[q]).position() as int] == q,
            decreases order@.len() - p,
        {
            let t = order[p];
            proof {
                assert(self.contains(order@[p as int]));
            }
            ids.set(t.index(), p as u64);
            proof {
                assert forall|q: int| 0 <= q < p + 1 implies ids@[(#[trigger] order@[q]).position() as int] == q by {
                    if q < p {
                        assert(order@[q] != order@[p as int]);
                        assert(self.contains(order@[q]));
                        TermId::lemma_handle_identity(order@[q], order@[p as int]);
                    }
                }
            }
            p = p + 1;
        }
        proof {
            assert forall|q: int| 0 <= q < order@.len() implies (#[trigger] order@[q]).position() < ids@.len()
                && ids@[order@[q].position() as int] == q by {
                assert(self.contains(order@[q]));
            }
            assert(indexed(ids@, order@));
        }
        let ghost whole = self.canonical_wire(order@);
        let mut output: Vec<u8> = Vec::new();
        let header = header_bytes();
        let ghost o0 = output@;
        let r0 = push_bytes(&mut output, header.as_slice(), budget);
        if r0.is_err() {
            proof {
                assert(whole =~= wire_header() + (varint_bytes(order@.len()) + self.nodes_wire(order@, order@.len() as int)
                    + varint_bytes((order@.len() - 1) as nat)));
            }
            return Err(exceeded("wire bytes", budget.max_wire_bytes));
        }
        let r1 = push_varint(&mut output, order.len() as u64, budget);
        if r1.is_err() {
            proof {
                assert(whole =~= wire_header() + varint_bytes(order@.len()) + (self.nodes_wire(order@, order@.len() as int)
                    + varint_bytes((order@.len() - 1) as nat)));
            }
            return Err(exceeded("wire bytes", budget.max_wire_bytes));
        }
        let mut p: usize = 0;
        while p < order.len()
            invariant
                self.wf(),
                self.traversal_of(order@, root),
                indexed(ids@, order@),
                p <= order@.len(),
                output@ == wire_header() + varint_bytes(order@.len()) + self.nodes_wire(order@, p as int),
                output@.len() <= budget.max_wire_bytes,
                whole == self.canonical_wire(order@),
            decreases order@.len() - p,
        {
            let t = order[p];
            proof {
                assert(self.contains(order@[p as int]));
                reveal(TermStore::kids);
                assert forall|k: int|
                    0 <= k < children_of(self.terms()[t.position() as int]).len() implies listed(
                    order@,
                    #[trigger] children_of(self.terms()[t.position() as int])[k],
                ) by {
                    assert(self.kids(order@[p as int])[k] == children_of(self.terms()[t.position() as int])[k]);
                    let q = choose|q: int| 0 <= q < p && order@[q] == self.kids(order@[p as int])[k];
                }
            }
            let nb = node_bytes(&self.nodes[t.index()], &ids, Ghost(order@));
            let ghost before = output@;
            let r = push_bytes(&mut output, nb.as_slice(), budget);
            proof {
                assert(self.nodes_wire(order@, p + 1) == self.nodes_wire(order@, p as int) + nb@);
            }
            if r.is_err() {
                proof {
                    let rest = self.nodes_wire(order@, order@.len() as int);
                    lemma_nodes_wire_prefix(*self, order@, p + 1, order@.len() as int);
                    assert(whole.len() >= before.len() + nb@.len());
                }
                return Err(exceeded("wire bytes", budget.max_wire_bytes));
            }
            p = p + 1;
        }
        let r2 = push_varint(&mut output, (order.len() - 1) as u64, budget);
        if r2.is_err() {
            return Err(exceeded("wire bytes", budget.max_wire_bytes));
        }
        proof {
            assert(output@ =~= whole);
        }
        Ok(output)
    }
}

proof fn lemma_nodes_wire_prefix(store: TermStore, order: Seq<TermId>, j: int, k: int)
    requires
        0 <= j <= k,
    ensures
        store.nodes_wire(order, k).len() >= store.nodes_wire(order, j).len(),
    decreases k - j,
{
    if j < k {
        lemma_nodes_wire_prefix(store, order, j, k - 1);
    }
}

impl TermStore {
    /// The stable cross-store identity of a term: the BLAKE3 hash of its
    /// canonical wire ([`TermStore::canonical_bytes`]), refused as that is.
    pub fn digest(&self, root: TermId, budget: TermBudget) -> (r: Result<TermDigest, TermError>)
        requires
            self.wf(),
        ensures
            handle_error(self.store_id(), self.terms().len(), root) is Some ==> r == Err::<TermDigest, TermError>(
                handle_error(self.store_id(), self.terms().len(), root).unwrap(),
            ),
            r matches Ok(d) ==> exists|order: Seq<TermId>|
                #[trigger] self.traversal_of(order, root) && d.0@ == blake3_hash(self.canonical_wire(order)),
            r matches Ok(d) ==> self.escape(root.position()) == 0,
            self.fits_walk(root, budget) && self.escape(root.position()) == 0 && (forall|order: Seq<TermId>|
                #[trigger] self.traversal_of(order, root) ==> self.canonical_wire(order).len() <= budget.max_wire_bytes) ==> r is Ok,
    {
        match self.canonical_bytes(root, budget) {
            Ok(bytes) => Ok(TermDigest(blake3_of(bytes.as_slice()))),
            Err(e) => Err(e),
        }
    }
}

/// Two nodes agree in everything but their children: the same variant,
/// operator, kind, atom and arity, with as many children in each place.
pub open spec fn same_shape(a: TermNode, b: TermNode) -> bool {
    match (a, b) {
        (TermNode::Atom(x), TermNode::Atom(y)) => atom_same(x, y),
        (TermNode::Apply { arguments: a1, .. }, TermNode::Apply { arguments: a2, .. }) => a1@.len() == a2@.len(),
        (TermNode::Relation { operator: o1, .. }, TermNode::Relation { operator: o2, .. }) => o1 == o2,
        (TermNode::Boolean { operator: o1, arguments: a1 }, TermNode::Boolean { operator: o2, arguments: a2 }) => o1 == o2
            && a1@.len() == a2@.len(),
        (TermNode::Condition { .. }, TermNode::Condition { .. }) => true,
        (TermNode::Piecewise { cases: c1, otherwise: o1 }, TermNode::Piecewise { cases: c2, otherwise: o2 }) => c1@.len()
            == c2@.len() && o1.is_some() == o2.is_some(),
        (TermNode::Collection { kind: k1, elements: e1 }, TermNode::Collection { kind: k2, elements: e2 }) => kind_same(
            k1,
            k2,
        ) && e1@.len() == e2@.len(),
        (TermNode::OrderedMap { entries: e1 }, TermNode::OrderedMap { entries: e2 }) => e1@.len() == e2@.len(),
        (TermNode::Index { indices: i1, .. }, TermNode::Index { indices: i2, .. }) => i1@.len() == i2@.len(),
        (
            TermNode::Slice { start: a1, end: b1, step: c1, .. },
            TermNode::Slice { start: a2, end: b2, step: c2, .. },
        ) => a1.is_some() == a2.is_some() && b1.is_some() == b2.is_some() && c1.is_some() == c2.is_some(),
        (TermNode::Rule { kind: k1, condition: c1, .. }, TermNode::Rule { kind: k2, condition: c2, .. }) => k1 == k2
            && c1.is_some() == c2.is_some(),
        (
            TermNode::Binder { kind: k1, variable_count: v1, bounds: b1, .. },
            TermNode::Binder { kind: k2, variable_count: v2, bounds: b2, .. },
        ) => k1 == k2 && v1 == v2 && b1@.len() == b2@.len(),
        (TermNode::Held { .. }, TermNode::Held { .. }) => true,
        _ => false,
    }
}

/// `b` is `a` with each child `c` replaced by `f(c)`.
pub open spec fn renamed(a: TermNode, b: TermNode, f: spec_fn(TermId) -> TermId) -> bool {
    same_shape(a, b) && children_of(b) == children_of(a).map_values(f)
}

fn map_ids(v: &Vec<TermId>, table: &Vec<TermId>) -> (r: Vec<TermId>)
    requires
        forall|k: int| 0 <= k < v@.len() ==> (#[trigger] v@[k]).position() < table@.len(),
    ensures
        r@ == v@.map_values(|c: TermId| table@[c.position() as int]),
{
    let mut r: Vec<TermId> = Vec::new();
    let mut i: usize = 0;
    while i < v.len()
        invariant
            i <= v@.len(),
            forall|k: int| 0 <= k < v@.len() ==> (#[trigger] v@[k]).position() < table@.len(),
            r@ == v@.subrange(0, i as int).map_values(|c: TermId| table@[c.position() as int]),
        decreases v@.len() - i,
    {
        r.push(table[v[i].index()]);
        i = i + 1;
        proof {
            assert(r@ =~= v@.subrange(0, i as int).map_values(|c: TermId| table@[c.position() as int]));
        }
    }
    proof {
        assert(v@.subrange(0, v@.len() as int) =~= v@);
    }
    r
}

fn map_opt(o: Option<TermId>, table: &Vec<TermId>) -> (r: Option<TermId>)
    requires
        o matches Some(c) ==> c.position() < table@.len(),
    ensures
        opt_seq(r) == opt_seq(o).map_values(|c: TermId| table@[c.position() as int]),
        r.is_some() == o.is_some(),
{
    match o {
        Some(c) => {
            let r = Some(table[c.index()]);
            proof {
                assert(opt_seq(r) =~= opt_seq(o).map_values(|c: TermId| table@[c.position() as int]));
            }
            r
        },
        None => {
            proof {
                assert(opt_seq(None::<TermId>) =~= opt_seq(o).map_values(|c: TermId| table@[c.position() as int]));
            }
            None
        },
    }
}

/// The node with each child replaced by its entry in `table` (by the
/// child's position).
fn remap_node(node: &TermNode, table: &Vec<TermId>) -> (r: TermNode)
    requires
        forall|k: int| 0 <= k < children_of(*node).len() ==> (#[trigger] children_of(*node)[k]).position() < table@.len(),
    ensures
        renamed(*node, r, |c: TermId| table@[c.position() as int]),
{
    let ghost f = |c: TermId| table@[c.position() as int];
    let ghost kids = children_of(*node);
    let r = match node {
        TermNode::Atom(a) => TermNode::Atom(a.clone()),
        TermNode::Apply { head, arguments } => {
            proof {
                assert(kids[0] == *head);
                assert forall|k: int| 0 <= k < arguments@.len() implies (#[trigger] arguments@[k]).position()
                    < table@.len() by {
                    assert(kids[k + 1] == arguments@[k]);
                }
            }
            TermNode::Apply { head: table[head.index()], arguments: map_ids(arguments, table) }
        },
        TermNode::Relation { operator, left, right } => {
            proof {
                assert(kids[0] == *left && kids[1] == *right);
            }
            TermNode::Relation { operator: *operator, left: table[left.index()], right: table[right.index()] }
        },
        TermNode::Boolean { operator, arguments } => {
            proof {
                assert forall|k: int| 0 <= k < arguments@.len() implies (#[trigger] arguments@[k]).position()
                    < table@.len() by {
                    assert(kids[k] == arguments@[k]);
                }
            }
            TermNode::Boolean { operator: *operator, arguments: map_ids(arguments, table) }
        },
        TermNode::Condition { expression, condition } => {
            proof {
                assert(kids[0] == *expression && kids[1] == *condition);
            }
            TermNode::Condition { expression: table[expression.index()], condition: table[condition.index()] }
        },
        TermNode::Piecewise { cases, otherwise } => {
            let mut mapped: Vec<PiecewiseCase> = Vec::new();
            let mut i: usize = 0;
            proof {
                assert forall|j: int| 0 <= j < cases@.len() implies (#[trigger] cases@[j]).value.position()
                    < table@.len() && cases@[j].condition.position() < table@.len() by {
                    assert(kids[2 * j] == case_children(cases@)[2 * j]);
                    assert(kids[2 * j + 1] == case_children(cases@)[2 * j + 1]);
                }
                if let Some(t) = *otherwise {
                    assert(kids[2 * cases@.len() as int] == t);
                }
            }
            while i < cases.len()
                invariant
                    i <= cases@.len(),
                    forall|j: int| 0 <= j < cases@.len() ==> (#[trigger] cases@[j]).value.position() < table@.len()
                        && cases@[j].condition.position() < table@.len(),
                    mapped@.len() == i,
                    case_children(mapped@) == case_children(cases@.subrange(0, i as int)).map_values(
                        |c: TermId| table@[c.position() as int],
                    ),
                decreases cases@.len() - i,
            {
                let c = cases[i];
                let ghost before = mapped@;
                mapped.push(PiecewiseCase { value: table[c.value.index()], condition: table[c.condition.index()] });
                i = i + 1;
                proof {
                    let g = |c: TermId| table@[c.position() as int];
                    let sub = cases@.subrange(0, i as int);
                    let prev = cases@.subrange(0, i - 1);
                    let lhs = case_children(mapped@);
                    let rhs = case_children(sub).map_values(g);
                    assert forall|j: int| 0 <= j < lhs.len() implies lhs[j] == rhs[j] by {
                        if j < 2 * (i - 1) {
                            assert(mapped@[j / 2] == before[j / 2]);
                            assert(sub[j / 2] == prev[j / 2]);
                            assert(case_children(before)[j] == case_children(prev).map_values(g)[j]);
                        }
                    }
                    assert(lhs =~= rhs);
                }
            }
            proof {
                assert(cases@.subrange(0, cases@.len() as int) =~= cases@);
            }
            TermNode::Piecewise { cases: mapped, otherwise: map_opt(*otherwise, table) }
        },
        TermNode::Collection { kind, elements } => {
            proof {
                assert forall|k: int| 0 <= k < elements@.len() implies (#[trigger] elements@[k]).position()
                    < table@.len() by {
                    assert(kids[k] == elements@[k]);
                }
            }
            TermNode::Collection { kind: kind.clone(), elements: map_ids(elements, table) }
        },
        TermNode::OrderedMap { entries } => {
            let mut mapped: Vec<(TermId, TermId)> = Vec::new();
            let mut i: usize = 0;
            proof {
                assert forall|j: int| 0 <= j < entries@.len() implies (#[trigger] entries@[j]).0.position()
                    < table@.len() && entries@[j].1.position() < table@.len() by {
                    assert(kids[2 * j] == entry_children(entries@)[2 * j]);
                    assert(kids[2 * j + 1] == entry_children(entries@)[2 * j + 1]);
                }
            }
            while i < entries.len()
                invariant
                    i <= entries@.len(),
                    forall|j: int| 0 <= j < entries@.len() ==> (#[trigger] entries@[j]).0.position() < table@.len()
                        && entries@[j].1.position() < table@.len(),
                    mapped@.len() == i,
                    entry_children(mapped@) == entry_children(entries@.subrange(0, i as int)).map_values(
                        |c: TermId| table@[c.position() as int],
                    ),
                decreases entries@.len() - i,
            {
                let e = entries[i];
                let ghost before = mapped@;
                mapped.push((table[e.0.index()], table[e.1.index()]));
                i = i + 1;
                proof {
                    let g = |c: TermId| table@[c.position() as int];
                    let sub = entries@.subrange(0, i as int);
                    let prev = entries@.subrange(0, i - 1);
                    let lhs = entry_children(mapped@);
                    let rhs = entry_children(sub).map_values(g);
                    assert forall|j: int| 0 <= j < lhs.len() implies lhs[j] == rhs[j] by {
                        if j < 2 * (i - 1) {
                            assert(mapped@[j / 2] == before[j / 2]);
                            assert(sub[j / 2] == prev[j / 2]);
                            assert(entry_children(before)[j] == entry_children(prev).map_values(g)[j]);
                        }
                    }
                    assert(lhs =~= rhs);
                }
            }
            proof {
                assert(entries@.subrange(0, entries@.len() as int) =~= entries@);
            }
            TermNode::OrderedMap { entries: mapped }
        },
        TermNode::Index { target, indices } => {
            proof {
                assert(kids[0] == *target);
                assert forall|k: int| 0 <= k < indices@.len() implies (#[trigger] indices@[k]).position()
                    < table@.len() by {
                    assert(kids[k + 1] == indices@[k]);
                }
            }
            TermNode::Index { target: table[target.index()], indices: map_ids(indices, table) }
        },
        TermNode::Slice { target, start, end, step } => {
            proof {
                assert(kids[0] == *target);
                let a = opt_seq(*start);
                let b = opt_seq(*end);
                if let Some(t) = *start {
                    assert(kids[1] == t);
                }
                if let Some(t) = *end {
                    assert(kids[1 + a.len() as int] == t);
                }
                if let Some(t) = *step {
                    assert(kids[1 + a.len() as int + b.len() as int] == t);
                }
            }
            TermNode::Slice {
                target: table[target.index()],
                start: map_opt(*start, table),
                end: map_opt(*end, table),
                step: map_opt(*step, table),
            }
        },
        TermNode::Rule { kind, pattern, replacement, condition } => {
            proof {
                assert(kids[0] == *pattern && kids[1] == *replacement);
                if let Some(t) = *condition {
                    assert(kids[2] == t);
                }
            }
            TermNode::Rule {
                kind: *kind,
                pattern: table[pattern.index()],
                replacement: table[replacement.index()],
                condition: map_opt(*condition, table),
            }
        },
        TermNode::Binder { kind, variable_count, bounds, body } => {
            proof {
                assert forall|k: int| 0 <= k < bounds@.len() implies (#[trigger] bounds@[k]).position() < table@.len() by {
                    assert(kids[k] == bounds@[k]);
                }
                assert(kids[bounds@.len() as int] == *body);
            }
            TermNode::Binder {
                kind: *kind,
                variable_count: *variable_count,
                bounds: map_ids(bounds, table),
                body: table[body.index()],
            }
        },
        TermNode::Held { expression } => {
            proof {
                assert(kids[0] == *expression);
            }
            TermNode::Held { expression: table[expression.index()] }
        },
    };
    proof {
        assert(children_of(r) =~= children_of(*node).map_values(f));
    }
    r
}

/// `dest` holds, at `targets[p]`, the source term `order[p]` rebuilt: the
/// same node with each child replaced by the target of that child.
pub open spec fn rebuilt_as(source: TermStore, order: Seq<TermId>, dest: TermStore, targets: Seq<TermId>, n: int) -> bool {
    forall|p: int|
        0 <= p < n ==> dest.contains(#[trigger] targets[p]) && renamed(
            source.terms()[order[p].position() as int],
            dest.terms()[targets[p].position() as int],
            |c: TermId| targets[order.index_of(c)],
        )
}

proof fn lemma_renamed_agree(a: TermNode, b: TermNode, f: spec_fn(TermId) -> TermId, g: spec_fn(TermId) -> TermId)
    requires
        renamed(a, b, f),
        forall|k: int| 0 <= k < children_of(a).len() ==> f(#[trigger] children_of(a)[k]) == g(children_of(a)[k]),
    ensures
        renamed(a, b, g),
{
    assert(children_of(a).map_values(f) =~= children_of(a).map_values(g));
}

impl TermStore {
    /// Rebuild the terms reachable from `root` in `source` into this store,
    /// child first, interning each; local handles are never copied. The
    /// result is the handle of the rebuilt root. Refused as the walk of
    /// `root` in `source` is, or as interning a rebuilt node is; a refused
    /// import leaves this store as it was.
    #[verifier::spinoff_prover]
    pub fn import(&mut self, source: &TermStore, root: TermId, budget: TermBudget) -> (r: Result<TermId, TermError>)
        requires
            old(self).wf(),
            source.wf(),
        ensures
            final(self).wf(),
            final(self).store_id() == old(self).store_id(),
            handle_error(source.store_id(), source.terms().len(), root) is Some ==> r == Err::<TermId, TermError>(
                handle_error(source.store_id(), source.terms().len(), root).unwrap(),
            ),
            r is Err ==> final(self).terms() == old(self).terms() && final(self).symbol_table() == old(
                self,
            ).symbol_table(),
            r matches Ok(t) ==> {
                &&& final(self).contains(t)
                &&& old(self).terms().is_prefix_of(final(self).terms())
                &&& exists|order: Seq<TermId>, targets: Seq<TermId>|
                    #[trigger] source.traversal_of(order, root) && targets.len() == order.len() && targets.last() == t
                        && #[trigger] rebuilt_as(*source, order, *final(self), targets, order.len() as int)
            },
    {
        let order = match source.topological(root, budget) {
            Ok(o) => o,
            Err(e) => {
                return Err(e);
            },
        };
        let ghost start = *self;
        let old_len = self.nodes.len();
        let old_symbols = self.symbols.len();
        let old_node_bytes = self.logical_node_bytes;
        let old_symbol_bytes = self.logical_symbol_bytes;
        let n = source.nodes.len();
        let filler = TermId::handle(self.id, 0);
        let mut table: Vec<TermId> = Vec::new();
        while table.len() < n
            invariant
                table@.len() <= n,
            decreases n - table@.len(),
        {
            table.push(filler);
        }
        let mut targets: Vec<TermId> = Vec::new();
        let mut p: usize = 0;
        while p < order.len()
            invariant
                self.wf(),
                source.wf(),
                source.traversal_of(order@, root),
                self.store_id() == start.store_id(),
                start.terms().is_prefix_of(self.terms()),
                start.symbol_table().is_prefix_of(self.symbol_table()),
                start.depths().is_prefix_of(self.depths()),
                start.wf(),
                start == *old(self),
                old_len == start.terms().len(),
                old_symbols == start.symbol_table().len(),
                (old_node_bytes, old_symbol_bytes) == start.logical_totals(),
                table@.len() == n,
                n == source.terms().len(),
                p <= order@.len(),
                targets@.len() == p,
                forall|q: int| 0 <= q < p ==> table@[(#[trigger] order@[q]).position() as int] == targets@[q],
                rebuilt_as(*source, order@, *self, targets@, p as int),
            decreases order@.len() - p,
        {
            let s = order[p];
            proof {
                source.lemma_listed_children(order@, root, p as int);
                assert(source.contains(order@[p as int]));
            }
            let node = &source.nodes[s.index()];
            let mapped = remap_node(node, &table);
            let ghost before = *self;
            let ghost old_table = table@;
            match self.intern(mapped, budget) {
                Ok(t) => {
                    let ghost old_targets = targets@;
                    table.set(s.index(), t);
                    targets.push(t);
                    proof {
                        assert forall|q: int| 0 <= q < p + 1 implies table@[(#[trigger] order@[q]).position() as int]
                            == targets@[q] by {
                            if q < p {
                                assert(order@[q] != order@[p as int]);
                                assert(source.contains(order@[q]));
                                TermId::lemma_handle_identity(order@[q], order@[p as int]);
                            }
                        }
                        lemma_import_step(*source, order@, root, before, *self, old_targets, old_table, mapped, t, p as int);
                        assert(old_targets.push(t) == targets@);
                    }
                },
                Err(e) => {
                    proof {
                        assert(self.terms() == before.terms());
                    }
                    self.nodes.truncate(old_len);
                    self.depths.truncate(old_len);
                    self.symbols.truncate(old_symbols);
                    self.logical_node_bytes = old_node_bytes;
                    self.logical_symbol_bytes = old_symbol_bytes;
                    proof {
                        assert(self.terms() =~= start.terms());
                        assert(self.depths() =~= start.depths());
                        assert(self.symbol_table() =~= start.symbol_table());
                    }
                    return Err(e);
                },
            }
            p = p + 1;
        }
        let t = targets[targets.len() - 1];
        proof {
            assert(source.traversal_of(order@, root));
            assert(rebuilt_as(*source, order@, *self, targets@, order@.len() as int));
        }
        Ok(t)
    }
}

proof fn lemma_index_of_distinct(order: Seq<TermId>, w: int)
    requires
        0 <= w < order.len(),
        forall|p: int, q: int| 0 <= p < q < order.len() ==> #[trigger] order[p] != #[trigger] order[q],
    ensures
        order.index_of(order[w]) == w,
{
    let i = order.index_of(order[w]);
    assert(0 <= i < order.len() && order[i] == order[w]);
    if i < w {
        assert(order[i] != order[w]);
    } else if w < i {
        assert(order[w] != order[i]);
    }
}

/// A rebuilt node stays rebuilt when replaced by a structurally same one.
proof fn lemma_renamed_same(a: TermNode, b: TermNode, c: TermNode, f: spec_fn(TermId) -> TermId)
    requires
        renamed(a, b, f),
        node_same(c, b),
    ensures
        renamed(a, c, f),
{
    lemma_node_same_children(c, b);
}

impl TermStore {
    /// Every child of the `p`-th term of a traversal is an earlier term of
    /// it, within the store.
    proof fn lemma_listed_children(self, order: Seq<TermId>, root: TermId, p: int)
        requires
            self.wf(),
            self.traversal_of(order, root),
            0 <= p < order.len(),
        ensures
            forall|k: int|
                0 <= k < children_of(self.terms()[order[p].position() as int]).len() ==> Self::listed_before(
                    order,
                    p,
                    #[trigger] children_of(self.terms()[order[p].position() as int])[k],
                ),
            forall|k: int|
                0 <= k < children_of(self.terms()[order[p].position() as int]).len() ==> (#[trigger] children_of(
                    self.terms()[order[p].position() as int],
                )[k]).position() < self.terms().len(),
    {
        reveal(TermStore::kids);
        let kids = children_of(self.terms()[order[p].position() as int]);
        assert forall|k: int| 0 <= k < kids.len() implies Self::listed_before(order, p, #[trigger] kids[k]) by {
            assert(self.kids(order[p]) == kids);
            assert(Self::listed_before(order, p, self.kids(order[p])[k]));
        }
        assert forall|k: int| 0 <= k < kids.len() implies (#[trigger] kids[k]).position() < self.terms().len() by {
            assert(self.kids(order[p]) == kids);
            assert(Self::listed_before(order, p, self.kids(order[p])[k]));
            let w = choose|w: int| 0 <= w < p && order[w] == kids[k];
            assert(self.contains(order[w]));
        }
    }
}

/// One more source term rebuilt: the rebuilt listing extends by its
/// target.
proof fn lemma_import_step(
    source: TermStore,
    order: Seq<TermId>,
    root: TermId,
    before: TermStore,
    after: TermStore,
    targets: Seq<TermId>,
    table: Seq<TermId>,
    mapped: TermNode,
    t: TermId,
    p: int,
)
    requires
        source.wf(),
        source.traversal_of(order, root),
        0 <= p < order.len(),
        targets.len() == p,
        rebuilt_as(source, order, before, targets, p),
        before.terms().is_prefix_of(after.terms()),
        forall|q: int| 0 <= q < p ==> table[(#[trigger] order[q]).position() as int] == targets[q],
        renamed(source.terms()[order[p].position() as int], mapped, |c: TermId| table[c.position() as int]),
        after.contains(t),
        node_same(after.terms()[t.position() as int], mapped),
        before.store_id() == after.store_id(),
    ensures
        rebuilt_as(source, order, after, targets.push(t), p + 1),
{
    source.lemma_listed_children(order, root, p);
    let t2 = targets.push(t);
    let g = |c: TermId| t2[order.index_of(c)];
    assert forall|q: int| 0 <= q < p + 1 implies after.contains(#[trigger] t2[q]) && renamed(
        source.terms()[order[q].position() as int],
        after.terms()[t2[q].position() as int],
        g,
    ) by {
        let a = source.terms()[order[q].position() as int];
        if q < p {
            let f_old = |c: TermId| targets[order.index_of(c)];
            assert(t2[q] == targets[q]);
            assert(before.contains(targets[q]));
            assert(after.terms()[targets[q].position() as int] == before.terms()[targets[q].position() as int]);
            source.lemma_listed_children(order, root, q);
            assert forall|k: int| 0 <= k < children_of(a).len() implies f_old(#[trigger] children_of(a)[k]) == g(
                children_of(a)[k],
            ) by {
                let w = choose|w: int| 0 <= w < q && order[w] == children_of(a)[k];
                lemma_index_of_distinct(order, w);
            }
            lemma_renamed_agree(a, after.terms()[t2[q].position() as int], f_old, g);
        } else {
            let tab = |c: TermId| table[c.position() as int];
            assert forall|k: int| 0 <= k < children_of(a).len() implies tab(#[trigger] children_of(a)[k]) == g(
                children_of(a)[k],
            ) by {
                let w = choose|w: int| 0 <= w < p && order[w] == children_of(a)[k];
                lemma_index_of_distinct(order, w);
            }
            lemma_renamed_agree(a, mapped, tab, g);
            lemma_node_same_symmetric(after.terms()[t.position() as int], mapped);
            lemma_renamed_same(a, mapped, after.terms()[t.position() as int], g);
        }
    }
}

} // verus!
