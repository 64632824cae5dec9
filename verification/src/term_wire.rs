//! The canonical wire form of terms: LEB128 and zigzag integers,
//! length-prefixed blobs, one-byte tags, and the encoding of atoms and
//! nodes against a child-first listing.
use vstd::prelude::*;
use vstd::utf8::encode_utf8;
use crate::rational::{Rational, int_spelling, integer_spelling};
use crate::term::{
    TermId, TermBudget, SymbolName, SymbolicConstant, RelationOperator, BooleanOperator, CollectionKind, RuleKind,
    BinderKind, PiecewiseCase, ExactDecimal, PrecisionReal, Atom, TermNode, TermError,
};
use crate::term_store::{children_of, case_children, entry_children, opt_seq};

verus! {

/// The budget error for `resource`.
pub(crate) fn exceeded(resource: &'static str, limit: usize) -> (r: TermError)
    ensures
        r == (TermError::BudgetExceeded { resource, limit }),
{
    TermError::BudgetExceeded { resource, limit }
}

/// Wire tag of a relational operator.
pub(crate) fn relation_tag(value: RelationOperator) -> (r: u8)
    ensures
        r == relation_tag_spec(value),
{
    match value {
        RelationOperator::Equal => 0,
        RelationOperator::NotEqual => 1,
        RelationOperator::Less => 2,
        RelationOperator::LessEqual => 3,
        RelationOperator::Greater => 4,
        RelationOperator::GreaterEqual => 5,
    }
}

/// The relational operator of a wire tag.
pub(crate) fn decode_relation(value: u8) -> (r: Result<RelationOperator, TermError>)
    ensures
        r is Ok <==> value < 6,
        r is Err ==> r == Err::<RelationOperator, TermError>(TermError::InvalidWire("relation tag")),
        r matches Ok(op) ==> relation_tag_spec(op) == value,
{
    match value {
        0 => Ok(RelationOperator::Equal),
        1 => Ok(RelationOperator::NotEqual),
        2 => Ok(RelationOperator::Less),
        3 => Ok(RelationOperator::LessEqual),
        4 => Ok(RelationOperator::Greater),
        5 => Ok(RelationOperator::GreaterEqual),
        _ => Err(TermError::InvalidWire("relation tag")),
    }
}

/// The wire tag of a relational operator.
pub open spec fn relation_tag_spec(value: RelationOperator) -> u8 {
    match value {
        RelationOperator::Equal => 0,
        RelationOperator::NotEqual => 1,
        RelationOperator::Less => 2,
        RelationOperator::LessEqual => 3,
        RelationOperator::Greater => 4,
        RelationOperator::GreaterEqual => 5,
    }
}

/// The wire tag of a boolean connective.
pub open spec fn boolean_tag_spec(value: BooleanOperator) -> u8 {
    match value {
        BooleanOperator::Not => 0,
        BooleanOperator::And => 1,
        BooleanOperator::Or => 2,
        BooleanOperator::Xor => 3,
        BooleanOperator::Implies => 4,
        BooleanOperator::Equivalent => 5,
    }
}

/// The wire tag of a rule kind.
pub open spec fn rule_tag_spec(value: RuleKind) -> u8 {
    match value {
        RuleKind::Immediate => 0,
        RuleKind::Delayed => 1,
        RuleKind::Pattern => 2,
    }
}

/// The wire tag of a binder kind.
pub open spec fn binder_tag_spec(value: BinderKind) -> u8 {
    match value {
        BinderKind::Lambda => 0,
        BinderKind::Sum => 1,
        BinderKind::Product => 2,
        BinderKind::Integral => 3,
        BinderKind::Limit => 4,
        BinderKind::Local => 5,
    }
}

/// The wire tag of a symbolic constant.
pub open spec fn constant_tag_spec(value: SymbolicConstant) -> u8 {
    match value {
        SymbolicConstant::Pi => 0,
        SymbolicConstant::E => 1,
        SymbolicConstant::ImaginaryUnit => 2,
        SymbolicConstant::Infinity => 3,
        SymbolicConstant::ComplexInfinity => 4,
        SymbolicConstant::Undefined => 5,
    }
}


/// Wire tag of a boolean connective.
pub(crate) fn boolean_tag(value: BooleanOperator) -> (r: u8)
    ensures
        r == boolean_tag_spec(value),
{
    match value {
        BooleanOperator::Not => 0,
        BooleanOperator::And => 1,
        BooleanOperator::Or => 2,
        BooleanOperator::Xor => 3,
        BooleanOperator::Implies => 4,
        BooleanOperator::Equivalent => 5,
    }
}

/// The boolean connective of a wire tag.
pub(crate) fn decode_boolean(value: u8) -> (r: Result<BooleanOperator, TermError>)
    ensures
        r is Ok <==> value < 6,
        r is Err ==> r == Err::<BooleanOperator, TermError>(TermError::InvalidWire("boolean tag")),
        r matches Ok(op) ==> boolean_tag_spec(op) == value,
{
    match value {
        0 => Ok(BooleanOperator::Not),
        1 => Ok(BooleanOperator::And),
        2 => Ok(BooleanOperator::Or),
        3 => Ok(BooleanOperator::Xor),
        4 => Ok(BooleanOperator::Implies),
        5 => Ok(BooleanOperator::Equivalent),
        _ => Err(TermError::InvalidWire("boolean tag")),
    }
}

/// Wire tag of a rule kind.
pub(crate) fn rule_tag(value: RuleKind) -> (r: u8)
    ensures
        r == rule_tag_spec(value),
{
    match value {
        RuleKind::Immediate => 0,
        RuleKind::Delayed => 1,
        RuleKind::Pattern => 2,
    }
}

/// The rule kind of a wire tag.
pub(crate) fn decode_rule(value: u8) -> (r: Result<RuleKind, TermError>)
    ensures
        r is Ok <==> value < 3,
        r is Err ==> r == Err::<RuleKind, TermError>(TermError::InvalidWire("rule tag")),
        r matches Ok(k) ==> rule_tag_spec(k) == value,
{
    match value {
        0 => Ok(RuleKind::Immediate),
        1 => Ok(RuleKind::Delayed),
        2 => Ok(RuleKind::Pattern),
        _ => Err(TermError::InvalidWire("rule tag")),
    }
}

/// Wire tag of a binder kind.
pub(crate) fn binder_tag(value: BinderKind) -> (r: u8)
    ensures
        r == binder_tag_spec(value),
{
    match value {
        BinderKind::Lambda => 0,
        BinderKind::Sum => 1,
        BinderKind::Product => 2,
        BinderKind::Integral => 3,
        BinderKind::Limit => 4,
        BinderKind::Local => 5,
    }
}

/// The binder kind of a wire tag.
pub(crate) fn decode_binder(value: u8) -> (r: Result<BinderKind, TermError>)
    ensures
        r is Ok <==> value < 6,
        r is Err ==> r == Err::<BinderKind, TermError>(TermError::InvalidWire("binder tag")),
        r matches Ok(k) ==> binder_tag_spec(k) == value,
{
    match value {
        0 => Ok(BinderKind::Lambda),
        1 => Ok(BinderKind::Sum),
        2 => Ok(BinderKind::Product),
        3 => Ok(BinderKind::Integral),
        4 => Ok(BinderKind::Limit),
        5 => Ok(BinderKind::Local),
        _ => Err(TermError::InvalidWire("binder tag")),
    }
}

/// Wire tag of a symbolic constant.
pub(crate) fn constant_tag(value: SymbolicConstant) -> (r: u8)
    ensures
        r == constant_tag_spec(value),
{
    match value {
        SymbolicConstant::Pi => 0,
        SymbolicConstant::E => 1,
        SymbolicConstant::ImaginaryUnit => 2,
        SymbolicConstant::Infinity => 3,
        SymbolicConstant::ComplexInfinity => 4,
        SymbolicConstant::Undefined => 5,
    }
}

/// The symbolic constant of a wire tag.
pub(crate) fn decode_constant(value: u8) -> (r: Result<SymbolicConstant, TermError>)
    ensures
        r is Ok <==> value < 6,
        r is Err ==> r == Err::<SymbolicConstant, TermError>(TermError::InvalidWire("constant tag")),
        r matches Ok(k) ==> constant_tag_spec(k) == value,
{
    match value {
        0 => Ok(SymbolicConstant::Pi),
        1 => Ok(SymbolicConstant::E),
        2 => Ok(SymbolicConstant::ImaginaryUnit),
        3 => Ok(SymbolicConstant::Infinity),
        4 => Ok(SymbolicConstant::ComplexInfinity),
        5 => Ok(SymbolicConstant::Undefined),
        _ => Err(TermError::InvalidWire("constant tag")),
    }
}

/// Every wire tag names exactly one operator, kind or constant: decoding
/// the tag of a value gives the value back.
pub proof fn lemma_wire_tags_are_injective()
    ensures
        forall|a: BooleanOperator, b: BooleanOperator| boolean_tag_spec(a) == boolean_tag_spec(b) ==> a == b,
        forall|a: RuleKind, b: RuleKind| rule_tag_spec(a) == rule_tag_spec(b) ==> a == b,
        forall|a: BinderKind, b: BinderKind| binder_tag_spec(a) == binder_tag_spec(b) ==> a == b,
        forall|a: SymbolicConstant, b: SymbolicConstant| constant_tag_spec(a) == constant_tag_spec(b) ==> a == b,
        forall|a: RelationOperator, b: RelationOperator| relation_tag_spec(a) == relation_tag_spec(b) ==> a == b,
{
}

/// LEB128 bytes of `v`: seven bits per byte, low group first, the high bit
/// set on every byte but the last.
pub open spec fn varint_bytes(v: nat) -> Seq<u8>
    decreases v,
{
    if v < 128 {
        seq![v as u8]
    } else {
        seq![(v % 128 + 128) as u8] + varint_bytes(v / 128)
    }
}

/// Zigzag code of a signed integer: `0, -1, 1, -2, …` to `0, 1, 2, 3, …`.
pub open spec fn zigzag(v: int) -> nat {
    if v >= 0 {
        (2 * v) as nat
    } else {
        (-2 * v - 1) as nat
    }
}

/// What an append under the wire budget leaves in `old`'s place: the bytes
/// that fit, all of them when the result stays within `limit`.
pub open spec fn appended(old: Seq<u8>, bytes: Seq<u8>, limit: nat) -> Seq<u8> {
    if old.len() + bytes.len() <= limit {
        old + bytes
    } else if old.len() >= limit {
        old
    } else {
        old + bytes.subrange(0, limit - old.len())
    }
}

/// Append `value` unless the wire would grow past its budget.
pub(crate) fn push_bytes(output: &mut Vec<u8>, value: &[u8], budget: TermBudget) -> (r: Result<(), TermError>)
    ensures
        r is Ok <==> old(output)@.len() + value@.len() <= budget.max_wire_bytes,
        r is Ok ==> final(output)@ == old(output)@ + value@,
        r is Err ==> final(output)@ == old(output)@ && r == Err::<(), TermError>(
            TermError::BudgetExceeded { resource: "wire bytes", limit: budget.max_wire_bytes },
        ),
{
    let length = match output.len().checked_add(value.len()) {
        Some(x) => x,
        None => {
            return Err(exceeded("wire bytes", budget.max_wire_bytes));
        },
    };
    if length > budget.max_wire_bytes {
        return Err(exceeded("wire bytes", budget.max_wire_bytes));
    }
    let ghost start = output@;
    let mut i: usize = 0;
    while i < value.len()
        invariant
            i <= value@.len(),
            output@ == start + value@.subrange(0, i as int),
        decreases value@.len() - i,
    {
        output.push(value[i]);
        i = i + 1;
        proof {
            assert(output@ =~= start + value@.subrange(0, i as int));
        }
    }
    proof {
        assert(value@.subrange(0, value@.len() as int) =~= value@);
    }
    Ok(())
}

/// Append one byte under the wire budget.
pub(crate) fn push_u8(output: &mut Vec<u8>, value: u8, budget: TermBudget) -> (r: Result<(), TermError>)
    ensures
        r is Ok <==> old(output)@.len() + 1 <= budget.max_wire_bytes,
        r is Ok ==> final(output)@ == old(output)@.push(value),
        r is Err ==> final(output)@ == old(output)@ && r == Err::<(), TermError>(
            TermError::BudgetExceeded { resource: "wire bytes", limit: budget.max_wire_bytes },
        ),
{
    let one = [value];
    let r = push_bytes(output, &one, budget);
    proof {
        assert(one@ =~= seq![value]);
        assert(old(output)@ + seq![value] =~= old(output)@.push(value));
    }
    r
}

/// The low seven bits and the rest of a 64-bit value.
proof fn lemma_low_seven(v: u64)
    ensures
        (v & 0x7f) as nat == v as nat % 128,
        (v >> 7) as nat == v as nat / 128,
        v & 0x7f < 128,
{
    assert((v & 0x7f) == v % 128) by (bit_vector);
    assert((v >> 7) == v / 128) by (bit_vector);
    assert(v & 0x7f < 128) by (bit_vector);
}

/// Setting the continuation bit of a byte below `128` adds `128`.
proof fn lemma_continuation_bit(b: u8)
    requires
        b < 128,
    ensures
        b | 0x80 == b + 128,
{
    assert(b < 128 ==> b | 0x80 == b + 128) by (bit_vector);
}

/// Append the LEB128 encoding of `value` under the wire budget.
pub(crate) fn push_varint(output: &mut Vec<u8>, value: u64, budget: TermBudget) -> (r: Result<(), TermError>)
    ensures
        r is Ok <==> old(output)@.len() + varint_bytes(value as nat).len() <= budget.max_wire_bytes,
        final(output)@ == appended(old(output)@, varint_bytes(value as nat), budget.max_wire_bytes as nat),
        r is Err ==> r == Err::<(), TermError>(
            TermError::BudgetExceeded { resource: "wire bytes", limit: budget.max_wire_bytes },
        ),
{
    let ghost start = output@;
    let ghost all = varint_bytes(value as nat);
    let ghost limit = budget.max_wire_bytes as nat;
    let ghost mut k: int = 0;
    let mut v = value;
    proof {
        assert(all.subrange(0, 0) + varint_bytes(v as nat) =~= all);
        assert(output@ =~= start + all.subrange(0, 0));
    }
    loop
        invariant
            start == old(output)@,
            all == varint_bytes(value as nat),
            limit == budget.max_wire_bytes,
            0 <= k < all.len(),
            all.subrange(k, all.len() as int) == varint_bytes(v as nat),
            output@ == start + all.subrange(0, k),
            k > 0 ==> start.len() + k <= limit,
        decreases v,
    {
        proof {
            lemma_low_seven(v);
        }
        let ghost vo = v as nat;
        let mut byte = (v & 0x7f) as u8;
        v = v >> 7;
        if v != 0 {
            proof {
                lemma_continuation_bit(byte);
            }
            byte = byte | 0x80;
        }
        proof {
            if v == 0 {
                assert(vo < 128);
                assert(varint_bytes(vo) == seq![byte]);
            } else {
                assert(vo >= 128);
                assert(varint_bytes(vo) == seq![byte] + varint_bytes(v as nat));
            }
            assert(all[k] == byte) by {
                assert(all.subrange(k, all.len() as int)[0] == all[k]);
            }
        }
        let ghost before = output@;
        match push_u8(output, byte, budget) {
            Ok(()) => {},
            Err(e) => {
                proof {
                    assert(output@ == before);
                    assert(before.len() == start.len() + k);
                    assert(before.len() + 1 > limit);
                    assert(all.len() >= k + 1);
                    assert(start.len() + all.len() > limit);
                    if k == 0 {
                        assert(start + all.subrange(0, 0) =~= start);
                        assert(start.len() >= limit);
                    } else {
                        assert(start.len() + k == limit);
                        assert(limit - start.len() == k);
                    }
                    assert(output@ == appended(start, all, limit));
                }
                return Err(e);
            },
        }
        proof {
            assert(output@ =~= start + all.subrange(0, k + 1));
        }
        if v == 0 {
            proof {
                assert(all.subrange(k, all.len() as int).len() == 1);
                assert(k + 1 == all.len());
                assert(all.subrange(0, k + 1) =~= all);
            }
            return Ok(());
        }
        proof {
            let tail = all.subrange(k, all.len() as int);
            assert(tail == seq![byte] + varint_bytes(v as nat));
            assert(all.subrange(k + 1, all.len() as int) =~= tail.drop_first());
            assert(tail.drop_first() =~= varint_bytes(v as nat));
            k = k + 1;
        }
    }
}

/// `(v << 1) ^ (v >> 63)` as unsigned: the zigzag code.
pub(crate) fn zigzag_encode(value: i64) -> (r: u64)
    ensures
        r as nat == zigzag(value as int),
{
    let r = ((value << 1) ^ (value >> 63)) as u64;
    proof {
        assert(value >= 0 ==> ((value << 1) ^ (value >> 63)) as u64 == 2 * (value as u64)) by (bit_vector);
        assert(value < 0 ==> ((value << 1) ^ (value >> 63)) as u64 == ((-2 * (value as int)) - 1) as u64) by (bit_vector);
    }
    r
}


/// The value of LEB128 bytes: the low seven bits of each byte, low group
/// first.
pub open spec fn varint_value(bytes: Seq<u8>) -> nat
    decreases bytes.len(),
{
    if bytes.len() == 0 {
        0
    } else {
        (bytes[0] % 128) as nat + 128 * varint_value(bytes.drop_first())
    }
}

/// Encoding then reading back gives the value.
pub proof fn lemma_varint_value_of_bytes(v: nat)
    ensures
        varint_value(varint_bytes(v)) == v,
        varint_bytes(v).len() >= 1,
    decreases v,
{
    assert(varint_value(Seq::<u8>::empty()) == 0);
    if v >= 128 {
        lemma_varint_value_of_bytes(v / 128);
        let b = varint_bytes(v);
        assert(b.drop_first() =~= varint_bytes(v / 128));
        assert(b[0] == (v % 128 + 128) as u8);
        assert(b[0] % 128 == v % 128);
        assert(varint_value(b) == (b[0] % 128) as nat + 128 * varint_value(b.drop_first()));
        assert(v == 128 * (v / 128) + v % 128);
    } else {
        let b = varint_bytes(v);
        assert(b.drop_first() =~= Seq::<u8>::empty());
        assert(b[0] == v as u8);
        assert(varint_value(b) == (b[0] % 128) as nat + 128 * varint_value(b.drop_first()));
    }
}

/// The shape of an encoding: every byte but the last carries the
/// continuation bit, and the last byte is nonzero unless it is the only one.
pub open spec fn canonical_varint(bytes: Seq<u8>) -> bool {
    &&& bytes.len() >= 1
    &&& forall|i: int| 0 <= i < bytes.len() - 1 ==> #[trigger] bytes[i] >= 128
    &&& bytes.last() < 128
    &&& (bytes.len() > 1 ==> bytes.last() != 0)
}

/// Encodings are canonical, and a canonical byte string is the encoding of
/// its value.
pub proof fn lemma_canonical_varint(bytes: Seq<u8>, v: nat)
    ensures
        canonical_varint(varint_bytes(v)),
        canonical_varint(bytes) ==> varint_bytes(varint_value(bytes)) == bytes,
    decreases bytes.len() + v,
{
    let b = varint_bytes(v);
    if v >= 128 {
        lemma_canonical_varint(Seq::<u8>::empty(), v / 128);
        let t = varint_bytes(v / 128);
        assert(b.drop_first() =~= t);
        assert forall|i: int| 0 <= i < b.len() - 1 implies #[trigger] b[i] >= 128 by {
            if i > 0 {
                assert(b[i] == t[i - 1]);
            }
        }
        assert(b.last() == t.last());
        if t.len() == 1 {
            assert(v / 128 > 0);
        }
    }
    if canonical_varint(bytes) {
        let val = varint_value(bytes);
        if bytes.len() == 1 {
            assert(bytes.drop_first() =~= Seq::<u8>::empty());
            assert(varint_value(Seq::<u8>::empty()) == 0);
            assert(val == (bytes[0] % 128) as nat + 128 * varint_value(bytes.drop_first()));
            assert(val == bytes[0] % 128);
            assert(varint_bytes(val) =~= bytes);
        } else {
            let rest = bytes.drop_first();
            assert forall|i: int| 0 <= i < rest.len() - 1 implies #[trigger] rest[i] >= 128 by {
                assert(rest[i] == bytes[i + 1]);
            }
            assert(rest.last() == bytes.last());
            assert(canonical_varint(rest));
            lemma_canonical_varint(rest, 0);
            let rv = varint_value(rest);
            assert(varint_bytes(rv) == rest);
            assert(rv > 0) by {
                if rv == 0 {
                    lemma_varint_zero(rest);
                }
            }
            assert(bytes[0] >= 128);
            assert(val == (bytes[0] % 128) as nat + 128 * rv);
            assert(val >= 128);
            assert(val % 128 == bytes[0] % 128) by (nonlinear_arith)
                requires
                    val == (bytes[0] % 128) as nat + 128 * rv,
            ;
            assert(val / 128 == rv) by (nonlinear_arith)
                requires
                    val == (bytes[0] % 128) as nat + 128 * rv,
                    (bytes[0] % 128) < 128,
            ;
            assert((bytes[0] % 128 + 128) as u8 == bytes[0]);
            assert(varint_bytes(val) =~= seq![bytes[0]] + rest);
            assert(seq![bytes[0]] + rest =~= bytes);
        }
    }
}

/// A canonical multi-byte string has a nonzero value.
proof fn lemma_varint_zero(bytes: Seq<u8>)
    requires
        canonical_varint(bytes),
        bytes.len() > 1,
    ensures
        varint_value(bytes) > 0,
    decreases bytes.len(),
{
    let rest = bytes.drop_first();
    if rest.len() > 1 {
        assert forall|i: int| 0 <= i < rest.len() - 1 implies #[trigger] rest[i] >= 128 by {
            assert(rest[i] == bytes[i + 1]);
        }
        assert(rest.last() == bytes.last());
        lemma_varint_zero(rest);
    } else {
        assert(rest.len() == 1);
        assert(rest[0] == bytes.last());
        assert(rest.drop_first() =~= Seq::<u8>::empty());
        assert(varint_value(Seq::<u8>::empty()) == 0);
        assert(varint_value(rest) == (rest[0] % 128) as nat + 128 * varint_value(rest.drop_first()));
        assert(varint_value(rest) == rest[0] % 128);
    }
}

/// A length-prefixed byte string.
pub open spec fn blob(bytes: Seq<u8>) -> Seq<u8> {
    varint_bytes(bytes.len()) + bytes
}

/// The eight big-endian bytes of a 64-bit value.
pub open spec fn be64(v: u64) -> Seq<u8> {
    Seq::new(8, |i: int| (v >> ((56 - 8 * i) as u64)) as u8)
}

/// A text as a blob of its UTF-8 bytes.
pub open spec fn text_wire(s: Seq<char>) -> Seq<u8> {
    blob(encode_utf8(s))
}

/// The wire of an atom: its tag, then its payload.
pub open spec fn atom_wire(a: Atom) -> Seq<u8> {
    match a {
        Atom::Integer(v) => seq![0x01u8] + text_wire(v@),
        Atom::Rational(q) => seq![0x02u8] + text_wire(int_spelling(q@.0)) + text_wire(int_spelling(q@.1)),
        Atom::ExactDecimal(x) => seq![0x03u8] + text_wire(x@.0) + varint_bytes(zigzag(x@.1 as int)),
        Atom::ExactIeee754Bits(b) => seq![0x04u8] + be64(b),
        Atom::MachineFloatBits(b) => seq![0x05u8] + be64(b),
        Atom::PrecisionReal(x) => seq![0x06u8] + text_wire(x@.0) + varint_bytes(zigzag(x@.1 as int)) + varint_bytes(
            x@.2 as nat,
        ),
        Atom::String(v) => seq![0x07u8] + text_wire(v@),
        Atom::Bytes(v) => seq![0x08u8] + blob(v@),
        Atom::Symbol(v) => seq![0x09u8] + text_wire(v.namespace@) + text_wire(v.name@),
        Atom::Boolean(b) => seq![0x0au8, if b {
            1u8
        } else {
            0u8
        }],
        Atom::Constant(c) => seq![0x0bu8, constant_tag_spec(c)],
        Atom::BoundVariable(v) => seq![0x0cu8] + varint_bytes(v as nat),
    }
}

/// A reference to a listed term: its index in the listing.
pub open spec fn ref_wire(order: Seq<TermId>, t: TermId) -> Seq<u8> {
    varint_bytes(order.index_of(t) as nat)
}

/// References to `ids`, one after another.
pub open spec fn refs_body(order: Seq<TermId>, ids: Seq<TermId>) -> Seq<u8>
    decreases ids.len(),
{
    if ids.len() == 0 {
        seq![]
    } else {
        refs_body(order, ids.drop_last()) + ref_wire(order, ids.last())
    }
}

/// A counted list of references.
pub open spec fn refs_wire(order: Seq<TermId>, ids: Seq<TermId>) -> Seq<u8> {
    varint_bytes(ids.len()) + refs_body(order, ids)
}

/// An optional reference: `0`, or `1` and the reference.
pub open spec fn opt_wire(order: Seq<TermId>, o: Option<TermId>) -> Seq<u8> {
    match o {
        Some(t) => seq![1u8] + ref_wire(order, t),
        None => seq![0u8],
    }
}

/// Piecewise cases: value and condition references in turn.
pub open spec fn cases_body(order: Seq<TermId>, cases: Seq<PiecewiseCase>) -> Seq<u8>
    decreases cases.len(),
{
    if cases.len() == 0 {
        seq![]
    } else {
        cases_body(order, cases.drop_last()) + ref_wire(order, cases.last().value) + ref_wire(
            order,
            cases.last().condition,
        )
    }
}

/// Map entries: key and value references in turn.
pub open spec fn entries_body(order: Seq<TermId>, entries: Seq<(TermId, TermId)>) -> Seq<u8>
    decreases entries.len(),
{
    if entries.len() == 0 {
        seq![]
    } else {
        entries_body(order, entries.drop_last()) + ref_wire(order, entries.last().0) + ref_wire(order, entries.last().1)
    }
}

/// Array extents, one after another.
pub open spec fn extents_body(shape: Seq<usize>) -> Seq<u8>
    decreases shape.len(),
{
    if shape.len() == 0 {
        seq![]
    } else {
        extents_body(shape.drop_last()) + varint_bytes(shape.last() as nat)
    }
}

/// The wire of a collection kind.
pub open spec fn kind_wire(kind: CollectionKind) -> Seq<u8> {
    match kind {
        CollectionKind::Tuple => seq![0u8],
        CollectionKind::List => seq![1u8],
        CollectionKind::Array { shape } => seq![2u8] + varint_bytes(shape@.len()) + extents_body(shape@),
    }
}

/// The wire of a node against a listing of its children: its tag, then
/// its operator or kind, then its atom or child references.
pub open spec fn node_wire(order: Seq<TermId>, node: TermNode) -> Seq<u8> {
    match node {
        TermNode::Atom(a) => seq![0x01u8] + atom_wire(a),
        TermNode::Apply { head, arguments } => seq![0x10u8] + ref_wire(order, head) + refs_wire(order, arguments@),
        TermNode::Relation { operator, left, right } => seq![0x11u8, relation_tag_spec(operator)] + ref_wire(
            order,
            left,
        ) + ref_wire(order, right),
        TermNode::Boolean { operator, arguments } => seq![0x12u8, boolean_tag_spec(operator)] + refs_wire(
            order,
            arguments@,
        ),
        TermNode::Condition { expression, condition } => seq![0x13u8] + ref_wire(order, expression) + ref_wire(
            order,
            condition,
        ),
        TermNode::Piecewise { cases, otherwise } => seq![0x14u8] + varint_bytes(cases@.len()) + cases_body(
            order,
            cases@,
        ) + opt_wire(order, otherwise),
        TermNode::Collection { kind, elements } => seq![0x15u8] + kind_wire(kind) + refs_wire(order, elements@),
        TermNode::OrderedMap { entries } => seq![0x16u8] + varint_bytes(entries@.len()) + entries_body(order, entries@),
        TermNode::Index { target, indices } => seq![0x17u8] + ref_wire(order, target) + refs_wire(order, indices@),
        TermNode::Slice { target, start, end, step } => seq![0x18u8] + ref_wire(order, target) + opt_wire(order, start)
            + opt_wire(order, end) + opt_wire(order, step),
        TermNode::Rule { kind, pattern, replacement, condition } => seq![0x19u8, rule_tag_spec(kind)] + ref_wire(
            order,
            pattern,
        ) + ref_wire(order, replacement) + opt_wire(order, condition),
        TermNode::Binder { kind, variable_count, bounds, body } => seq![0x1au8, binder_tag_spec(kind)] + varint_bytes(
            variable_count as nat,
        ) + refs_wire(order, bounds@) + ref_wire(order, body),
        TermNode::Held { expression } => seq![0x1bu8] + ref_wire(order, expression),
    }
}

/// `ids` holds, at the position of each listed term, its index in the
/// listing; the listing has no repeats.
pub open spec fn indexed(ids: Seq<u64>, order: Seq<TermId>) -> bool {
    &&& forall|p: int, q: int| 0 <= p < q < order.len() ==> #[trigger] order[p] != #[trigger] order[q]
    &&& forall|q: int|
        0 <= q < order.len() ==> (#[trigger] order[q]).position() < ids.len() && ids[order[q].position() as int] == q
}

/// Append the LEB128 encoding of `value`.
pub(crate) fn append_varint(output: &mut Vec<u8>, value: u64)
    ensures
        final(output)@ == old(output)@ + varint_bytes(value as nat),
{
    let ghost start = output@;
    let ghost all = varint_bytes(value as nat);
    let ghost mut k: int = 0;
    let mut v = value;
    proof {
        assert(all.subrange(0, 0) + varint_bytes(v as nat) =~= all);
        assert(output@ =~= start + all.subrange(0, 0));
    }
    loop
        invariant
            start == old(output)@,
            all == varint_bytes(value as nat),
            0 <= k < all.len(),
            all.subrange(k, all.len() as int) == varint_bytes(v as nat),
            output@ == start + all.subrange(0, k),
        decreases v,
    {
        proof {
            lemma_low_seven(v);
        }
        let ghost vo = v as nat;
        let mut byte = (v & 0x7f) as u8;
        v = v >> 7;
        if v != 0 {
            proof {
                lemma_continuation_bit(byte);
            }
            byte = byte | 0x80;
        }
        proof {
            if v == 0 {
                assert(varint_bytes(vo) == seq![byte]);
            } else {
                assert(varint_bytes(vo) == seq![byte] + varint_bytes(v as nat));
            }
            assert(all[k] == byte) by {
                assert(all.subrange(k, all.len() as int)[0] == all[k]);
            }
        }
        output.push(byte);
        proof {
            assert(output@ =~= start + all.subrange(0, k + 1));
        }
        if v == 0 {
            proof {
                assert(k + 1 == all.len());
                assert(all.subrange(0, k + 1) =~= all);
            }
            return ;
        }
        proof {
            let tail = all.subrange(k, all.len() as int);
            assert(all.subrange(k + 1, all.len() as int) =~= tail.drop_first());
            assert(tail.drop_first() =~= varint_bytes(v as nat));
            k = k + 1;
        }
    }
}

/// Append bytes.
pub(crate) fn append_bytes(output: &mut Vec<u8>, value: &[u8])
    ensures
        final(output)@ == old(output)@ + value@,
{
    let mut i: usize = 0;
    while i < value.len()
        invariant
            i <= value@.len(),
            output@ == old(output)@ + value@.subrange(0, i as int),
        decreases value@.len() - i,
    {
        output.push(value[i]);
        i = i + 1;
        proof {
            assert(output@ =~= old(output)@ + value@.subrange(0, i as int));
        }
    }
    proof {
        assert(value@.subrange(0, value@.len() as int) =~= value@);
    }
}

/// Append a length-prefixed byte string.
pub(crate) fn append_blob(output: &mut Vec<u8>, value: &[u8])
    ensures
        final(output)@ == old(output)@ + blob(value@),
{
    append_varint(output, value.len() as u64);
    append_bytes(output, value);
    proof {
        assert(old(output)@ + varint_bytes(value@.len()) + value@ =~= old(output)@ + blob(value@));
    }
}

/// Append a text as a blob of its UTF-8 bytes.
pub(crate) fn append_text(output: &mut Vec<u8>, value: &str)
    ensures
        final(output)@ == old(output)@ + text_wire(value@),
{
    append_blob(output, value.as_bytes());
}

/// Append the eight big-endian bytes of a 64-bit value.
pub(crate) fn append_be64(output: &mut Vec<u8>, value: u64)
    ensures
        final(output)@ == old(output)@ + be64(value),
{
    let mut i: u64 = 0;
    while i < 8
        invariant
            i <= 8,
            output@ == old(output)@ + be64(value).subrange(0, i as int),
        decreases 8 - i,
    {
        let b = (value >> (56 - 8 * i)) as u8;
        output.push(b);
        i = i + 1;
        proof {
            assert(output@ =~= old(output)@ + be64(value).subrange(0, i as int));
        }
    }
    proof {
        assert(be64(value).subrange(0, 8) =~= be64(value));
    }
}

/// The wire of an atom.
pub(crate) fn atom_bytes(atom: &Atom) -> (r: Vec<u8>)
    ensures
        r@ == atom_wire(*atom),
{
    let mut out: Vec<u8> = Vec::new();
    match atom {
        Atom::Integer(v) => {
            out.push(0x01);
            append_text(&mut out, v.as_str());
        },
        Atom::Rational(q) => {
            out.push(0x02);
            let n = integer_spelling(&q.numerator());
            let d = integer_spelling(&q.denominator());
            append_text(&mut out, n.as_str());
            append_text(&mut out, d.as_str());
        },
        Atom::ExactDecimal(x) => {
            out.push(0x03);
            append_text(&mut out, x.coefficient());
            append_varint(&mut out, zigzag_encode(x.scale()));
        },
        Atom::ExactIeee754Bits(b) => {
            out.push(0x04);
            append_be64(&mut out, *b);
        },
        Atom::MachineFloatBits(b) => {
            out.push(0x05);
            append_be64(&mut out, *b);
        },
        Atom::PrecisionReal(x) => {
            out.push(0x06);
            append_text(&mut out, x.significand());
            append_varint(&mut out, zigzag_encode(x.exponent10()));
            append_varint(&mut out, x.precision_bits() as u64);
        },
        Atom::String(v) => {
            out.push(0x07);
            append_text(&mut out, v.as_str());
        },
        Atom::Bytes(v) => {
            out.push(0x08);
            append_blob(&mut out, v.as_slice());
        },
        Atom::Symbol(v) => {
            out.push(0x09);
            append_text(&mut out, v.namespace.as_str());
            append_text(&mut out, v.name.as_str());
        },
        Atom::Boolean(b) => {
            out.push(0x0a);
            out.push(if *b {
                1u8
            } else {
                0u8
            });
        },
        Atom::Constant(c) => {
            out.push(0x0b);
            out.push(constant_tag(*c));
        },
        Atom::BoundVariable(v) => {
            out.push(0x0c);
            append_varint(&mut out, *v as u64);
        },
    }
    proof {
        assert(out@ =~= atom_wire(*atom));
    }
    out
}

/// `t` occurs in the listing.
pub open spec fn listed(order: Seq<TermId>, t: TermId) -> bool {
    exists|q: int| 0 <= q < order.len() && order[q] == t
}

proof fn lemma_index_of(ids: Seq<u64>, order: Seq<TermId>, t: TermId)
    requires
        indexed(ids, order),
        listed(order, t),
    ensures
        t.position() < ids.len(),
        ids[t.position() as int] == order.index_of(t),
        0 <= order.index_of(t) < order.len(),
        order[order.index_of(t)] == t,
{
    let q = choose|q: int| 0 <= q < order.len() && order[q] == t;
    let i = order.index_of(t);
    assert(0 <= i < order.len() && order[i] == t);
    if i != q {
        if i < q {
            assert(order[i] != order[q]);
        } else {
            assert(order[q] != order[i]);
        }
    }
}

/// Append a reference to a listed term.
fn append_ref(output: &mut Vec<u8>, ids: &Vec<u64>, Ghost(order): Ghost<Seq<TermId>>, t: TermId)
    requires
        indexed(ids@, order),
        listed(order, t),
    ensures
        final(output)@ == old(output)@ + ref_wire(order, t),
{
    proof {
        lemma_index_of(ids@, order, t);
    }
    append_varint(output, ids[t.index()]);
}

/// Append references to the listed terms `v`, one after another.
fn append_refs_body(output: &mut Vec<u8>, ids: &Vec<u64>, Ghost(order): Ghost<Seq<TermId>>, v: &Vec<TermId>)
    requires
        indexed(ids@, order),
        forall|k: int| 0 <= k < v@.len() ==> listed(order, #[trigger] v@[k]),
    ensures
        final(output)@ == old(output)@ + refs_body(order, v@),
{
    let mut i: usize = 0;
    proof {
        assert(refs_body(order, v@.subrange(0, 0)) =~= Seq::<u8>::empty());
        assert(output@ =~= old(output)@ + refs_body(order, v@.subrange(0, 0)));
    }
    while i < v.len()
        invariant
            i <= v@.len(),
            indexed(ids@, order),
            forall|k: int| 0 <= k < v@.len() ==> listed(order, #[trigger] v@[k]),
            output@ == old(output)@ + refs_body(order, v@.subrange(0, i as int)),
        decreases v@.len() - i,
    {
        let ghost before = output@;
        proof {
            assert(listed(order, v@[i as int]));
        }
        append_ref(output, ids, Ghost(order), v[i]);
        proof {
            let sub = v@.subrange(0, i + 1);
            assert(sub.drop_last() =~= v@.subrange(0, i as int));
            assert(sub.last() == v@[i as int]);
            assert(output@ =~= old(output)@ + refs_body(order, sub));
        }
        i = i + 1;
    }
    proof {
        assert(v@.subrange(0, v@.len() as int) =~= v@);
    }
}

/// Append a counted list of references.
fn append_refs(output: &mut Vec<u8>, ids: &Vec<u64>, Ghost(order): Ghost<Seq<TermId>>, v: &Vec<TermId>)
    requires
        indexed(ids@, order),
        forall|k: int| 0 <= k < v@.len() ==> listed(order, #[trigger] v@[k]),
    ensures
        final(output)@ == old(output)@ + refs_wire(order, v@),
{
    append_varint(output, v.len() as u64);
    append_refs_body(output, ids, Ghost(order), v);
    proof {
        assert(old(output)@ + varint_bytes(v@.len()) + refs_body(order, v@) =~= old(output)@ + refs_wire(order, v@));
    }
}

/// Append an optional reference.
fn append_opt(output: &mut Vec<u8>, ids: &Vec<u64>, Ghost(order): Ghost<Seq<TermId>>, o: Option<TermId>)
    requires
        indexed(ids@, order),
        o matches Some(t) ==> listed(order, t),
    ensures
        final(output)@ == old(output)@ + opt_wire(order, o),
{
    match o {
        Some(t) => {
            output.push(1u8);
            append_ref(output, ids, Ghost(order), t);
            proof {
                assert(old(output)@.push(1u8) + ref_wire(order, t) =~= old(output)@ + opt_wire(order, o));
            }
        },
        None => {
            output.push(0u8);
            proof {
                assert(old(output)@.push(0u8) =~= old(output)@ + opt_wire(order, o));
            }
        },
    }
}

fn append_cases(output: &mut Vec<u8>, ids: &Vec<u64>, Ghost(order): Ghost<Seq<TermId>>, cases: &Vec<PiecewiseCase>)
    requires
        indexed(ids@, order),
        forall|i: int|
            0 <= i < cases@.len() ==> listed(order, (#[trigger] cases@[i]).value) && listed(order, cases@[i].condition),
    ensures
        final(output)@ == old(output)@ + cases_body(order, cases@),
{
    let mut i: usize = 0;
    proof {
        assert(output@ =~= old(output)@ + cases_body(order, cases@.subrange(0, 0)));
    }
    while i < cases.len()
        invariant
            i <= cases@.len(),
            indexed(ids@, order),
            forall|i: int|
                0 <= i < cases@.len() ==> listed(order, (#[trigger] cases@[i]).value) && listed(order, cases@[i].condition),
            output@ == old(output)@ + cases_body(order, cases@.subrange(0, i as int)),
        decreases cases@.len() - i,
    {
        proof {
            assert(listed(order, cases@[i as int].value));
        }
        append_ref(output, ids, Ghost(order), cases[i].value);
        append_ref(output, ids, Ghost(order), cases[i].condition);
        proof {
            let sub = cases@.subrange(0, i + 1);
            assert(sub.drop_last() =~= cases@.subrange(0, i as int));
            assert(sub.last() == cases@[i as int]);
            assert(output@ =~= old(output)@ + cases_body(order, sub));
        }
        i = i + 1;
    }
    proof {
        assert(cases@.subrange(0, cases@.len() as int) =~= cases@);
    }
}

fn append_entries(output: &mut Vec<u8>, ids: &Vec<u64>, Ghost(order): Ghost<Seq<TermId>>, entries: &Vec<(TermId, TermId)>)
    requires
        indexed(ids@, order),
        forall|i: int| 0 <= i < entries@.len() ==> listed(order, (#[trigger] entries@[i]).0) && listed(order, entries@[i].1),
    ensures
        final(output)@ == old(output)@ + entries_body(order, entries@),
{
    let mut i: usize = 0;
    proof {
        assert(output@ =~= old(output)@ + entries_body(order, entries@.subrange(0, 0)));
    }
    while i < entries.len()
        invariant
            i <= entries@.len(),
            indexed(ids@, order),
            forall|i: int| 0 <= i < entries@.len() ==> listed(order, (#[trigger] entries@[i]).0) && listed(order, entries@[i].1),
            output@ == old(output)@ + entries_body(order, entries@.subrange(0, i as int)),
        decreases entries@.len() - i,
    {
        proof {
            assert(listed(order, entries@[i as int].0));
        }
        append_ref(output, ids, Ghost(order), entries[i].0);
        append_ref(output, ids, Ghost(order), entries[i].1);
        proof {
            let sub = entries@.subrange(0, i + 1);
            assert(sub.drop_last() =~= entries@.subrange(0, i as int));
            assert(sub.last() == entries@[i as int]);
            assert(output@ =~= old(output)@ + entries_body(order, sub));
        }
        i = i + 1;
    }
    proof {
        assert(entries@.subrange(0, entries@.len() as int) =~= entries@);
    }
}

fn append_extents(output: &mut Vec<u8>, shape: &Vec<usize>)
    ensures
        final(output)@ == old(output)@ + extents_body(shape@),
{
    let mut i: usize = 0;
    proof {
        assert(output@ =~= old(output)@ + extents_body(shape@.subrange(0, 0)));
    }
    while i < shape.len()
        invariant
            i <= shape@.len(),
            output@ == old(output)@ + extents_body(shape@.subrange(0, i as int)),
        decreases shape@.len() - i,
    {
        append_varint(output, shape[i] as u64);
        proof {
            let sub = shape@.subrange(0, i + 1);
            assert(sub.drop_last() =~= shape@.subrange(0, i as int));
            assert(sub.last() == shape@[i as int]);
            assert(output@ =~= old(output)@ + extents_body(sub));
        }
        i = i + 1;
    }
    proof {
        assert(shape@.subrange(0, shape@.len() as int) =~= shape@);
    }
}

/// The wire of a node whose children are all listed.
pub(crate) fn node_bytes(node: &TermNode, ids: &Vec<u64>, Ghost(order): Ghost<Seq<TermId>>) -> (r: Vec<u8>)
    requires
        indexed(ids@, order),
        forall|k: int| 0 <= k < children_of(*node).len() ==> listed(order, #[trigger] children_of(*node)[k]),
    ensures
        r@ == node_wire(order, *node),
{
    let ghost kids = children_of(*node);
    let mut out: Vec<u8> = Vec::new();
    match node {
        TermNode::Atom(a) => {
            out.push(0x01);
            let b = atom_bytes(a);
            append_bytes(&mut out, b.as_slice());
        },
        TermNode::Apply { head, arguments } => {
            proof {
                assert(kids[0] == *head);
                assert forall|k: int| 0 <= k < arguments@.len() implies listed(order, #[trigger] arguments@[k]) by {
                    assert(kids[k + 1] == arguments@[k]);
                }
            }
            out.push(0x10);
            append_ref(&mut out, ids, Ghost(order), *head);
            append_refs(&mut out, ids, Ghost(order), arguments);
        },
        TermNode::Relation { operator, left, right } => {
            proof {
                assert(kids[0] == *left && kids[1] == *right);
            }
            out.push(0x11);
            out.push(relation_tag(*operator));
            append_ref(&mut out, ids, Ghost(order), *left);
            append_ref(&mut out, ids, Ghost(order), *right);
        },
        TermNode::Boolean { operator, arguments } => {
            proof {
                assert forall|k: int| 0 <= k < arguments@.len() implies listed(order, #[trigger] arguments@[k]) by {
                    assert(kids[k] == arguments@[k]);
                }
            }
            out.push(0x12);
            out.push(boolean_tag(*operator));
            append_refs(&mut out, ids, Ghost(order), arguments);
        },
        TermNode::Condition { expression, condition } => {
            proof {
                assert(kids[0] == *expression && kids[1] == *condition);
            }
            out.push(0x13);
            append_ref(&mut out, ids, Ghost(order), *expression);
            append_ref(&mut out, ids, Ghost(order), *condition);
        },
        TermNode::Piecewise { cases, otherwise } => {
            proof {
                assert forall|i: int| 0 <= i < cases@.len() implies listed(order, (#[trigger] cases@[i]).value)
                    && listed(order, cases@[i].condition) by {
                    assert(kids[2 * i] == case_children(cases@)[2 * i]);
                    assert(kids[2 * i + 1] == case_children(cases@)[2 * i + 1]);
                    assert(case_children(cases@)[2 * i] == cases@[i].value);
                    assert(case_children(cases@)[2 * i + 1] == cases@[i].condition);
                }
                if let Some(t) = *otherwise {
                    assert(kids[2 * cases@.len() as int] == t);
                }
            }
            out.push(0x14);
            append_varint(&mut out, cases.len() as u64);
            append_cases(&mut out, ids, Ghost(order), cases);
            append_opt(&mut out, ids, Ghost(order), *otherwise);
        },
        TermNode::Collection { kind, elements } => {
            proof {
                assert forall|k: int| 0 <= k < elements@.len() implies listed(order, #[trigger] elements@[k]) by {
                    assert(kids[k] == elements@[k]);
                }
            }
            out.push(0x15);
            match kind {
                CollectionKind::Tuple => {
                    out.push(0u8);
                },
                CollectionKind::List => {
                    out.push(1u8);
                },
                CollectionKind::Array { shape } => {
                    out.push(2u8);
                    append_varint(&mut out, shape.len() as u64);
                    append_extents(&mut out, shape);
                },
            }
            append_refs(&mut out, ids, Ghost(order), elements);
        },
        TermNode::OrderedMap { entries } => {
            proof {
                assert forall|i: int| 0 <= i < entries@.len() implies listed(order, (#[trigger] entries@[i]).0)
                    && listed(order, entries@[i].1) by {
                    assert(kids[2 * i] == entry_children(entries@)[2 * i]);
                    assert(kids[2 * i + 1] == entry_children(entries@)[2 * i + 1]);
                }
            }
            out.push(0x16);
            append_varint(&mut out, entries.len() as u64);
            append_entries(&mut out, ids, Ghost(order), entries);
        },
        TermNode::Index { target, indices } => {
            proof {
                assert(kids[0] == *target);
                assert forall|k: int| 0 <= k < indices@.len() implies listed(order, #[trigger] indices@[k]) by {
                    assert(kids[k + 1] == indices@[k]);
                }
            }
            out.push(0x17);
            append_ref(&mut out, ids, Ghost(order), *target);
            append_refs(&mut out, ids, Ghost(order), indices);
        },
        TermNode::Slice { target, start, end, step } => {
            proof {
                assert(kids[0] == *target);
                let a = opt_seq(*start);
                let b = opt_seq(*end);
                if let Some(t) = *start {
                    assert(kids[1] == t);
                }
                if let Some(t) = *end {
                    assert(kids[1 + a.len() as int] == t);
                }
                if let Some(t) = *step {
                    assert(kids[1 + a.len() as int + b.len() as int] == t);
                }
            }
            out.push(0x18);
            append_ref(&mut out, ids, Ghost(order), *target);
            append_opt(&mut out, ids, Ghost(order), *start);
            append_opt(&mut out, ids, Ghost(order), *end);
            append_opt(&mut out, ids, Ghost(order), *step);
        },
        TermNode::Rule { kind, pattern, replacement, condition } => {
            proof {
                assert(kids[0] == *pattern && kids[1] == *replacement);
                if let Some(t) = *condition {
                    assert(kids[2] == t);
                }
            }
            out.push(0x19);
            out.push(rule_tag(*kind));
            append_ref(&mut out, ids, Ghost(order), *pattern);
            append_ref(&mut out, ids, Ghost(order), *replacement);
            append_opt(&mut out, ids, Ghost(order), *condition);
        },
        TermNode::Binder { kind, variable_count, bounds, body } => {
            proof {
                assert forall|k: int| 0 <= k < bounds@.len() implies listed(order, #[trigger] bounds@[k]) by {
                    assert(kids[k] == bounds@[k]);
                }
                assert(kids[bounds@.len() as int] == *body);
            }
            out.push(0x1a);
            out.push(binder_tag(*kind));
            append_varint(&mut out, *variable_count as u64);
            append_refs(&mut out, ids, Ghost(order), bounds);
            append_ref(&mut out, ids, Ghost(order), *body);
        },
        TermNode::Held { expression } => {
            proof {
                assert(kids[0] == *expression);
            }
            out.push(0x1b);
            append_ref(&mut out, ids, Ghost(order), *expression);
        },
    }
    proof {
        assert(out@ =~= node_wire(order, *node));
    }
    out
}

} // verus!
