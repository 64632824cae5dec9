//! Fail-closed decoding of canonical term wires into a fresh store.
use vstd::prelude::*;
use vstd::utf8::{encode_utf8, valid_utf8};
use vstd::arithmetic::power2::{pow2, lemma_pow2_adds, lemma_pow2_pos, lemma2_to64};
use crate::rational::{Rational, parse_decimal_integer, qint};
use crate::term::{
    TermId, TermBudget, SymbolName, CollectionKind, PiecewiseCase, ExactDecimal, PrecisionReal, Atom, TermNode,
    TermError,
};
use crate::term_store::{TermStore, wire_header};
use crate::term_wire::{
    varint_bytes, varint_value, canonical_varint, zigzag, lemma_varint_value_of_bytes, lemma_canonical_varint, exceeded, decode_relation, decode_boolean, decode_rule, decode_binder, decode_constant,
};

verus! {

/// `String::from_utf8`: the text whose UTF-8 bytes are `bytes`, when they
/// are valid UTF-8.
#[verifier::external_body]
fn utf8_string(bytes: Vec<u8>) -> (r: Option<String>)
    ensures
        r is Some <==> valid_utf8(bytes@),
        r matches Some(s) ==> encode_utf8(s@) == bytes@,
{
    String::from_utf8(bytes).ok()
}

/// The canonical encoding of `v` stands in `s` at `p`.
pub open spec fn varint_at(s: Seq<u8>, p: int, v: u64) -> bool {
    &&& 0 <= p
    &&& p + varint_bytes(v as nat).len() <= s.len()
    &&& s.subrange(p, p + varint_bytes(v as nat).len()) == varint_bytes(v as nat)
}

/// Appending a byte adds its seven low bits at the next group.
proof fn lemma_varint_value_push(xs: Seq<u8>, b: u8)
    ensures
        varint_value(xs.push(b)) == varint_value(xs) + (b % 128) as nat * pow2(7 * xs.len()),
    decreases xs.len(),
{
    if xs.len() == 0 {
        assert(xs.push(b).drop_first() =~= Seq::<u8>::empty());
        assert(varint_value(Seq::<u8>::empty()) == 0);
        { lemma2_to64(); vstd::arithmetic::power2::lemma2_to64_rest(); assert(pow2(0) == 1); }
        assert(xs.push(b)[0] == b);
        assert(varint_value(xs.push(b)) == (b % 128) as nat + 128 * varint_value(xs.push(b).drop_first()));
        assert((b % 128) as nat * 1 == (b % 128) as nat);
    } else {
        lemma_varint_value_push(xs.drop_first(), b);
        assert(xs.push(b).drop_first() =~= xs.drop_first().push(b));
        assert(xs.push(b)[0] == xs[0]);
        assert(varint_value(xs.push(b)) == (xs[0] % 128) as nat + 128 * varint_value(xs.drop_first().push(b)));
        assert(varint_value(xs) == (xs[0] % 128) as nat + 128 * varint_value(xs.drop_first()));
        let n = xs.len();
        lemma_pow2_adds((7 * (n - 1)) as nat, 7);
        { lemma2_to64(); vstd::arithmetic::power2::lemma2_to64_rest(); assert(pow2(7) == 128); }
        let c = (b % 128) as nat;
        let q = pow2((7 * (n - 1)) as nat);
        let d = varint_value(xs.drop_first());
        let x0 = (xs[0] % 128) as nat;
        assert((7 * (n - 1)) as nat + 7 == 7 * n);
        assert(pow2(7 * n) == q * 128);
        assert(varint_value(xs.drop_first().push(b)) == d + c * q);
        assert(x0 + 128 * (d + c * q) == (x0 + 128 * d) + c * (q * 128)) by (nonlinear_arith);
    }
}

/// A canonical encoding's last byte weighs at least its group.
proof fn lemma_varint_value_last(xs: Seq<u8>)
    requires
        xs.len() >= 1,
    ensures
        varint_value(xs) >= (xs.last() % 128) as nat * pow2((7 * (xs.len() - 1)) as nat),
{
    lemma_varint_value_push(xs.drop_last(), xs.last());
    assert(xs.drop_last().push(xs.last()) =~= xs);
}

/// The encoding of a 64-bit value has at most ten bytes, and a last byte
/// of at most one when it has ten.
proof fn lemma_varint_u64_shape(v: u64)
    ensures
        varint_bytes(v as nat).len() <= 10,
        varint_bytes(v as nat).len() == 10 ==> varint_bytes(v as nat).last() <= 1,
{
    let b = varint_bytes(v as nat);
    lemma_varint_value_of_bytes(v as nat);
    lemma_canonical_varint(b, v as nat);
    lemma_varint_value_last(b);
    let l = b.len();
    let last = b.last();
    assert(last < 128);
    if l >= 10 {
        lemma2_to64();
        { lemma2_to64(); vstd::arithmetic::power2::lemma2_to64_rest(); assert(pow2(63) == 0x8000000000000000); }
        if l > 10 {
            assert(last != 0);
            vstd::arithmetic::power2::lemma_pow2_strictly_increases(63, (7 * (l - 1)) as nat);
            vstd::arithmetic::power2::lemma_pow2_strictly_increases(64, (7 * (l - 1)) as nat);
            { lemma2_to64(); vstd::arithmetic::power2::lemma2_to64_rest(); assert(pow2(64) == 0x10000000000000000); }
            assert((last % 128) as nat * pow2((7 * (l - 1)) as nat) >= pow2((7 * (l - 1)) as nat)) by (nonlinear_arith)
                requires
                    last % 128 >= 1,
            ;
        } else {
            if last >= 2 {
                assert((last % 128) as nat * pow2(63) >= 2 * pow2(63)) by (nonlinear_arith)
                    requires
                        last % 128 >= 2,
            ;
            }
        }
    }
}

/// Or-ing a group above the bits already set adds it.
proof fn lemma_or_above(value: u64, x: u64, shift: u64)
    requires
        shift < 64,
        value < (1u64 << shift),
    ensures
        value | (x << shift) == value + (x << shift),
{
    assert(value | (x << shift) == value + (x << shift)) by (bit_vector)
        requires
            shift < 64,
            value < (1u64 << shift),
    ;
}

/// Encodings are prefix-free: at one position of a byte string there is
/// at most one encoded value.
proof fn lemma_varint_at_unique(s: Seq<u8>, p: int, a: u64, b: u64)
    requires
        varint_at(s, p, a),
        varint_at(s, p, b),
    ensures
        a == b,
{
    lemma_varint_prefix(s, p, a, b);
    lemma_varint_prefix(s, p, b, a);
    let x = varint_bytes(a as nat);
    let y = varint_bytes(b as nat);
    assert(x.len() == y.len());
    assert forall|i: int| 0 <= i < x.len() implies x[i] == y[i] by {
        assert(x[i] == s.subrange(p, p + x.len())[i]);
        assert(y[i] == s.subrange(p, p + y.len())[i]);
    }
    assert(x =~= y);
    lemma_varint_value_of_bytes(a as nat);
    lemma_varint_value_of_bytes(b as nat);
}

/// The shorter of two encodings at one position is not strictly shorter.
proof fn lemma_varint_prefix(s: Seq<u8>, p: int, a: u64, b: u64)
    requires
        varint_at(s, p, a),
        varint_at(s, p, b),
    ensures
        varint_bytes(a as nat).len() >= varint_bytes(b as nat).len(),
{
    let x = varint_bytes(a as nat);
    let y = varint_bytes(b as nat);
    lemma_canonical_varint(Seq::<u8>::empty(), a as nat);
    lemma_canonical_varint(Seq::<u8>::empty(), b as nat);
    if x.len() < y.len() {
        let i = x.len() - 1;
        assert(x[i] == s.subrange(p, p + x.len())[i]);
        assert(y[i] == s.subrange(p, p + y.len())[i]);
        assert(x[i] == x.last());
        assert(y[i] >= 128);
    }
}

/// Take `count` bytes at the cursor: their start, the cursor moved past
/// them.
fn take(bytes: &[u8], pos: &mut usize, count: usize) -> (r: Result<usize, TermError>)
    requires
        *old(pos) <= bytes@.len(),
    ensures
        *final(pos) <= bytes@.len(),
        r is Ok <==> *old(pos) + count <= bytes@.len(),
        r matches Ok(start) ==> start == *old(pos) && *final(pos) == start + count,
        r is Err ==> *final(pos) == *old(pos),
{
    let _len = bytes.len();
    let end = match pos.checked_add(count) {
        Some(e) => e,
        None => {
            return Err(TermError::InvalidWire("offset overflow"));
        },
    };
    if end > bytes.len() {
        return Err(TermError::InvalidWire("truncated input"));
    }
    let start = *pos;
    *pos = end;
    Ok(start)
}

/// The byte at the cursor.
fn read_u8(bytes: &[u8], pos: &mut usize) -> (r: Result<u8, TermError>)
    requires
        *old(pos) <= bytes@.len(),
    ensures
        *final(pos) <= bytes@.len(),
        r is Ok <==> *old(pos) < bytes@.len(),
        r matches Ok(b) ==> b == bytes@[*old(pos) as int] && *final(pos) == *old(pos) + 1,
        r is Err ==> *final(pos) == *old(pos),
{
    let start = take(bytes, pos, 1)?;
    Ok(bytes[start])
}

/// A canonical LEB128 value at the cursor: at most ten bytes, no bits
/// past 64, no trailing zero group.
fn read_varint(bytes: &[u8], pos: &mut usize) -> (r: Result<u64, TermError>)
    requires
        *old(pos) <= bytes@.len(),
    ensures
        *final(pos) <= bytes@.len(),
        r matches Ok(v) ==> *old(pos) < *final(pos) && bytes@.subrange(*old(pos) as int, *final(pos) as int)
            == varint_bytes(v as nat),
        forall|v: u64| #[trigger] varint_at(bytes@, *old(pos) as int, v) ==> r == Ok::<u64, TermError>(v),
{
    let start = *pos;
    let ghost s = bytes@;
    let ghost enc: bool = exists|v: u64| #[trigger] varint_at(s, start as int, v);
    let ghost ev: u64 = choose|v: u64| #[trigger] varint_at(s, start as int, v);
    let ghost el: int = varint_bytes(ev as nat).len() as int;
    proof {
        if enc {
            lemma_varint_u64_shape(ev);
            lemma_canonical_varint(Seq::<u8>::empty(), ev as nat);
            lemma_varint_value_of_bytes(ev as nat);
        }
        assert(s.subrange(start as int, start as int) =~= Seq::<u8>::empty());
        assert(varint_value(Seq::<u8>::empty()) == 0);
        assert(1u64 << 0u64 == 1) by (bit_vector);
    }
    let mut value: u64 = 0;
    let mut shift: u64 = 0;
    while shift < 70
        invariant
            *pos <= bytes@.len(),
            s == bytes@,
            enc == (exists|v: u64| #[trigger] varint_at(s, start as int, v)),
            start == *old(pos),
            start <= *pos,
            shift % 7 == 0,
            shift <= 70,
            shift == 7 * (*pos - start),
            forall|i: int| start <= i < *pos ==> #[trigger] s[i] >= 128,
            value == varint_value(s.subrange(start as int, *pos as int)),
            shift < 64 ==> value < (1u64 << shift),
            enc ==> varint_at(s, start as int, ev) && *pos - start < el && el <= 10,
            enc ==> canonical_varint(varint_bytes(ev as nat)),
            enc ==> varint_value(varint_bytes(ev as nat)) == ev,
            enc ==> (el == 10 ==> varint_bytes(ev as nat).last() <= 1),
            el == varint_bytes(ev as nat).len(),
        decreases 70 - shift,
    {
        let ghost before = *pos;
        assert(shift <= 63);
        let byte = match read_u8(bytes, pos) {
            Ok(b) => b,
            Err(e) => {
                proof {
                    assert(!enc);
                    assert forall|v: u64| #[trigger] varint_at(s, start as int, v) implies false by {
                        assert(enc);
                    }
                }
                return Err(e);
            },
        };
        proof {
            if enc {
                let vb = varint_bytes(ev as nat);
                assert(s.subrange(start as int, start + el)[before - start] == s[before as int]);
                assert(s[before as int] == vb[before - start]);
                if before - start < el - 1 {
                    assert(vb[before - start] >= 128);
                } else {
                    assert(vb[before - start] == vb.last());
                }
            }
        }
        if shift == 63 && byte > 1 {
            proof {
                assert(!enc);
                assert forall|v: u64| #[trigger] varint_at(s, start as int, v) implies false by {
                    assert(enc);
                }
            }
            return Err(TermError::InvalidWire("varint overflow"));
        }
        let ghost old_value = value;
        if shift < 64 {
            let x: u64 = (byte & 0x7f) as u64;
            proof {
                assert(x == byte % 128) by (bit_vector)
                    requires
                        x == (byte & 0x7f) as u64,
                ;
                lemma2_to64();
                vstd::bits::lemma_u64_pow2_no_overflow(shift as nat);
                assert(x * pow2(shift as nat) <= u64::MAX) by {
                    if shift == 63 {
                        { lemma2_to64(); vstd::arithmetic::power2::lemma2_to64_rest(); assert(pow2(63) == 0x8000000000000000); }
                        assert(x <= 1);
                        assert(x * pow2(63) <= pow2(63)) by (nonlinear_arith)
                            requires
                                x <= 1,
                        ;
                    } else {
                        assert(shift <= 56);
                        vstd::arithmetic::power2::lemma_pow2_strictly_increases(shift as nat, 57);
                        { lemma2_to64(); vstd::arithmetic::power2::lemma2_to64_rest(); assert(pow2(57) == 0x200000000000000); }
                        assert(x * pow2(shift as nat) <= 127 * pow2(57)) by (nonlinear_arith)
                            requires
                                x <= 127,
                                pow2(shift as nat) < pow2(57),
                        ;
                    }
                }
                vstd::bits::lemma_u64_shl_is_mul(x, shift);
                vstd::bits::lemma_u64_shl_is_mul(1, shift);
                lemma_or_above(value, x, shift);
            }
            value = value | (x << shift);
            proof {
                lemma_varint_value_push(s.subrange(start as int, before as int), byte);
                assert(s.subrange(start as int, before as int).push(byte) =~= s.subrange(start as int, *pos as int));
                assert(7 * (before - start) == shift);
                if shift + 7 < 64 {
                    vstd::bits::lemma_u64_pow2_no_overflow((shift + 7) as nat);
                    vstd::bits::lemma_u64_shl_is_mul(1, (shift + 7) as u64);
                    lemma_pow2_adds(shift as nat, 7);
                    { lemma2_to64(); vstd::arithmetic::power2::lemma2_to64_rest(); assert(pow2(7) == 128); }
                    assert(old_value + x * pow2(shift as nat) < pow2(shift as nat) * 128) by (nonlinear_arith)
                        requires
                            old_value < pow2(shift as nat),
                            x < 128,
                    ;
                }
            }
        }
        if byte & 0x80 == 0 {
            proof {
                assert(byte < 128) by (bit_vector)
                    requires
                        byte & 0x80 == 0,
                ;
            }
            let length = *pos - start;
            if length > 1 && byte == 0 {
                proof {
                    assert(!enc);
                    assert forall|v: u64| #[trigger] varint_at(s, start as int, v) implies false by {
                        assert(enc);
                    }
                }
                return Err(TermError::InvalidWire("non-canonical varint"));
            }
            proof {
                let got = s.subrange(start as int, *pos as int);
                assert forall|i: int| 0 <= i < got.len() - 1 implies #[trigger] got[i] >= 128 by {
                    assert(got[i] == s[start + i]);
                }
                assert(got.last() == byte);
                assert(canonical_varint(got));
                lemma_canonical_varint(got, 0);
                assert(varint_value(got) == value);
                assert(varint_at(s, start as int, value));
                assert forall|v: u64| #[trigger] varint_at(s, start as int, v) implies v == value by {
                    lemma_varint_at_unique(s, start as int, v, value);
                }
            }
            return Ok(value);
        }
        proof {
            assert(byte >= 128) by (bit_vector)
                requires
                    byte & 0x80 != 0,
            ;
            if enc {
                if before - start == el - 1 {
                    assert(varint_bytes(ev as nat).last() < 128);
                }
            }
        }
        shift = shift + 7;
    }
    proof {
        assert forall|v: u64| #[trigger] varint_at(s, start as int, v) implies false by {
            assert(enc);
        }
    }
    Err(TermError::InvalidWire("varint overflow"))
}

/// Reading back a zigzag code: `v >> 1`, with all bits flipped when `v`
/// is odd, is the signed value whose code is `v`.
proof fn lemma_unzigzag(v: u64)
    ensures
        zigzag((((v >> 1u64) as i64) ^ (if v & 1 == 1 {
            -1i64
        } else {
            0i64
        })) as int) == v,
{
    let h = (v >> 1u64) as i64;
    assert(h >= 0 && 2 * h + (v & 1) == v) by (bit_vector)
        requires
            h == (v >> 1u64) as i64,
    ;
    assert(v & 1 == 0 || v & 1 == 1) by (bit_vector);
    if v & 1 == 1 {
        assert(h ^ -1i64 == -h - 1) by (bit_vector);
    } else {
        assert(h ^ 0i64 == h) by (bit_vector);
    }
}

/// A zigzag-coded signed value at the cursor.
fn read_zigzag(bytes: &[u8], pos: &mut usize) -> (r: Result<i64, TermError>)
    requires
        *old(pos) <= bytes@.len(),
    ensures
        *final(pos) <= bytes@.len(),
        r matches Ok(x) ==> *old(pos) < *final(pos) && bytes@.subrange(*old(pos) as int, *final(pos) as int)
            == varint_bytes(zigzag(x as int)),
        forall|v: u64| #[trigger] varint_at(bytes@, *old(pos) as int, v) ==> r is Ok,
{
    let value = read_varint(bytes, pos)?;
    let half = (value >> 1) as i64;
    let sign: i64 = if value & 1 == 1 {
        -1
    } else {
        0
    };
    proof {
        lemma_unzigzag(value);
    }
    Ok(half ^ sign)
}

/// The encoded value at `p` is `v`, it ends at `q`, and it is below
/// `bound`.
pub open spec fn varint_within(s: Seq<u8>, p: int, q: int, v: u64, bound: int) -> bool {
    &&& varint_at(s, p, v)
    &&& q == p + varint_bytes(v as nat).len()
    &&& v < bound
}

/// A value at the cursor that must fit a machine word.
fn read_usize(bytes: &[u8], pos: &mut usize, what: &'static str) -> (r: Result<usize, TermError>)
    requires
        *old(pos) <= bytes@.len(),
    ensures
        *final(pos) <= bytes@.len(),
        r is Ok ==> *old(pos) < *final(pos),
        r matches Ok(n) ==> varint_within(bytes@, *old(pos) as int, *final(pos) as int, n as u64, usize::MAX + 1),
        forall|v: u64| #[trigger] varint_at(bytes@, *old(pos) as int, v) ==> (r is Ok <==> v <= usize::MAX),
{
    let ghost p = *pos;
    let v = read_varint(bytes, pos)?;
    if v > usize::MAX as u64 {
        return Err(TermError::InvalidWire(what));
    }
    proof {
        lemma_canonical_varint(Seq::<u8>::empty(), v as nat);
        assert(varint_at(bytes@, p as int, v));
    }
    Ok(v as usize)
}

/// A length `v` within `limit` is encoded at `p`, and `v` bytes follow it.
pub open spec fn blob_at(s: Seq<u8>, p: int, v: u64, limit: int) -> bool {
    &&& varint_at(s, p, v)
    &&& v <= limit
    &&& p + varint_bytes(v as nat).len() + v <= s.len()
}

/// The bytes that follow the length encoded at `p`.
pub open spec fn blob_body(s: Seq<u8>, p: int, v: u64) -> Seq<u8> {
    s.subrange(p + varint_bytes(v as nat).len(), p + varint_bytes(v as nat).len() + v)
}

/// A length-prefixed byte string at the cursor, within `limit` bytes.
fn read_blob(bytes: &[u8], pos: &mut usize, limit: usize) -> (r: Result<Vec<u8>, TermError>)
    requires
        *old(pos) <= bytes@.len(),
    ensures
        *final(pos) <= bytes@.len(),
        r matches Ok(out) ==> exists|v: u64|
            #[trigger] blob_at(bytes@, *old(pos) as int, v, limit as int) && out@ == blob_body(bytes@, *old(pos) as int, v)
                && *final(pos) == *old(pos) + varint_bytes(v as nat).len() + v,
        forall|v: u64| #[trigger] varint_at(bytes@, *old(pos) as int, v) ==> (r is Ok <==> blob_at(bytes@, *old(pos) as int, v, limit as int)),
        forall|v: u64|
            #[trigger] blob_at(bytes@, *old(pos) as int, v, limit as int) ==> (r matches Ok(out) && out@ == blob_body(
                bytes@,
                *old(pos) as int,
                v,
            )),
{
    let ghost p = *pos;
    let length = read_usize(bytes, pos, "blob length overflow")?;
    proof {
        assert forall|v: u64| #[trigger] varint_at(bytes@, p as int, v) implies v == length as u64 by {
            lemma_varint_at_unique(bytes@, p as int, v, length as u64);
        }
    }
    if length > limit {
        return Err(exceeded("atom bytes", limit));
    }
    let start = take(bytes, pos, length)?;
    let end = *pos;
    let mut out: Vec<u8> = Vec::new();
    let mut i: usize = start;
    while i < end
        invariant
            start <= i <= end,
            end <= bytes@.len(),
            out@ == bytes@.subrange(start as int, i as int),
        decreases end - i,
    {
        out.push(bytes[i]);
        proof {
            assert(bytes@.subrange(start as int, i + 1) =~= bytes@.subrange(start as int, i as int).push(bytes@[i as int]));
        }
        i = i + 1;
    }
    proof {
        assert(blob_at(bytes@, p as int, length as u64, limit as int));
    }
    Ok(out)
}

/// A UTF-8 text blob at the cursor.
fn read_text(bytes: &[u8], pos: &mut usize, limit: usize) -> (r: Result<String, TermError>)
    requires
        *old(pos) <= bytes@.len(),
    ensures
        *final(pos) <= bytes@.len(),
        r matches Ok(t) ==> exists|v: u64|
            #[trigger] blob_at(bytes@, *old(pos) as int, v, limit as int) && encode_utf8(t@) == blob_body(
                bytes@,
                *old(pos) as int,
                v,
            ) && *final(pos) == *old(pos) + varint_bytes(v as nat).len() + v,
        forall|v: u64|
            #[trigger] varint_at(bytes@, *old(pos) as int, v) ==> (r is Ok <==> blob_at(bytes@, *old(pos) as int, v, limit as int)
                && valid_utf8(blob_body(bytes@, *old(pos) as int, v))),
        forall|v: u64|
            #[trigger] blob_at(bytes@, *old(pos) as int, v, limit as int) && valid_utf8(blob_body(bytes@, *old(pos) as int, v))
                ==> (r matches Ok(t) && encode_utf8(t@) == blob_body(bytes@, *old(pos) as int, v)),
{
    let ghost p = *pos;
    let raw = read_blob(bytes, pos, limit)?;
    let ghost v = choose|v: u64| #[trigger] blob_at(bytes@, p as int, v, limit as int) && raw@ == blob_body(bytes@, p as int, v)
        && *pos == p + varint_bytes(v as nat).len() + v;
    proof {
        assert forall|w: u64| #[trigger] varint_at(bytes@, p as int, w) implies w == v by {
            lemma_varint_at_unique(bytes@, p as int, v, w);
        }
    }
    match utf8_string(raw) {
        Some(s) => Ok(s),
        None => Err(TermError::InvalidWire("atom utf-8")),
    }
}

/// The big-endian value of a byte string.
pub open spec fn be_value(s: Seq<u8>) -> nat
    decreases s.len(),
{
    if s.len() == 0 {
        0
    } else {
        be_value(s.drop_last()) * 256 + s.last() as nat
    }
}

/// Eight big-endian bytes at the cursor.
fn read_be64(bytes: &[u8], pos: &mut usize) -> (r: Result<u64, TermError>)
    requires
        *old(pos) <= bytes@.len(),
    ensures
        *final(pos) <= bytes@.len(),
        r is Ok <==> *old(pos) + 8 <= bytes@.len(),
        r matches Ok(v) ==> *final(pos) == *old(pos) + 8 && v == be_value(
            bytes@.subrange(*old(pos) as int, *old(pos) + 8),
        ),
{
    let start = take(bytes, pos, 8)?;
    let end = *pos;
    let mut v: u64 = 0;
    let mut j: usize = start;
    proof {
        assert(bytes@.subrange(start as int, start as int) =~= Seq::<u8>::empty());
        lemma2_to64();
    }
    while j < end
        invariant
            start <= j <= end,
            end == start + 8,
            end <= bytes@.len(),
            v == be_value(bytes@.subrange(start as int, j as int)),
            v < pow2((8 * (j - start)) as nat),
        decreases end - j,
    {
        let b = bytes[j];
        proof {
            let k = (j - start) as nat;
            assert(k <= 7);
            lemma2_to64();
            vstd::arithmetic::power2::lemma2_to64_rest();
            if k < 7 {
                vstd::arithmetic::power2::lemma_pow2_strictly_increases(8 * k, 56);
            }
            assert(v < 0x100000000000000);
            assert((v << 8u64) | (b as u64) == v * 256 + b) by (bit_vector)
                requires
                    v < 0x100000000000000,
            ;
            let pre = bytes@.subrange(start as int, j as int);
            assert(bytes@.subrange(start as int, j + 1).drop_last() =~= pre);
            lemma_pow2_adds(8 * k, 8);
            assert(v * 256 + b < pow2(8 * k) * 256) by (nonlinear_arith)
                requires
                    v < pow2(8 * k),
                    b < 256,
            ;
        }
        v = (v << 8u64) | (b as u64);
        j = j + 1;
    }
    Ok(v)
}

/// The wire tag of an atom's kind.
pub open spec fn atom_tag(a: Atom) -> u8 {
    match a {
        Atom::Integer(_) => 0x01,
        Atom::Rational(_) => 0x02,
        Atom::ExactDecimal(_) => 0x03,
        Atom::ExactIeee754Bits(_) => 0x04,
        Atom::MachineFloatBits(_) => 0x05,
        Atom::PrecisionReal(_) => 0x06,
        Atom::String(_) => 0x07,
        Atom::Bytes(_) => 0x08,
        Atom::Symbol(_) => 0x09,
        Atom::Boolean(_) => 0x0a,
        Atom::Constant(_) => 0x0b,
        Atom::BoundVariable(_) => 0x0c,
    }
}

/// A text blob of at most `limit` bytes stands at `p`, ends at `q`, and
/// holds the UTF-8 bytes of `t`.
pub open spec fn text_at(s: Seq<u8>, p: int, q: int, limit: int, t: Seq<char>) -> bool {
    exists|v: u64|
        #[trigger] blob_at(s, p, v, limit) && encode_utf8(t) == blob_body(s, p, v) && q == p + varint_bytes(v as nat).len() + v
}

/// A byte blob of at most `limit` bytes stands at `p`, ends at `q`, and
/// holds `b`.
pub open spec fn bytes_at(s: Seq<u8>, p: int, q: int, limit: int, b: Seq<u8>) -> bool {
    exists|v: u64| #[trigger] blob_at(s, p, v, limit) && b == blob_body(s, p, v) && q == p + varint_bytes(v as nat).len() + v
}

/// An atom at the cursor.
fn read_atom(bytes: &[u8], pos: &mut usize, budget: TermBudget) -> (r: Result<Atom, TermError>)
    requires
        *old(pos) <= bytes@.len(),
    ensures
        *final(pos) <= bytes@.len(),
        r matches Ok(a) ==> *old(pos) < *final(pos) && bytes@[*old(pos) as int] == atom_tag(a),
        *old(pos) == bytes@.len() ==> r is Err,
        *old(pos) < bytes@.len() && (bytes@[*old(pos) as int] == 0 || bytes@[*old(pos) as int] > 0x0c) ==> r is Err,
        r matches Ok(Atom::Integer(t)) ==> text_at(bytes@, *old(pos) + 1, *final(pos) as int, budget.max_atom_bytes as int, t@),
        r matches Ok(Atom::String(t)) ==> text_at(bytes@, *old(pos) + 1, *final(pos) as int, budget.max_atom_bytes as int, t@),
        r matches Ok(Atom::Bytes(b)) ==> bytes_at(bytes@, *old(pos) + 1, *final(pos) as int, budget.max_atom_bytes as int, b@),
        r matches Ok(Atom::Boolean(x)) ==> *final(pos) == *old(pos) + 2 && bytes@[*old(pos) + 1] == (if x {
            1u8
        } else {
            0u8
        }),
        r matches Ok(Atom::ExactIeee754Bits(v)) ==> *final(pos) == *old(pos) + 9 && v == be_value(
            bytes@.subrange(*old(pos) + 1, *old(pos) + 9),
        ),
        r matches Ok(Atom::MachineFloatBits(v)) ==> *final(pos) == *old(pos) + 9 && v == be_value(
            bytes@.subrange(*old(pos) + 1, *old(pos) + 9),
        ),
        r matches Ok(Atom::BoundVariable(v)) ==> varint_at(bytes@, *old(pos) + 1, v as u64) && *final(pos) == *old(pos) + 1
            + varint_bytes(v as nat).len(),
        *old(pos) + 1 < bytes@.len() && bytes@[*old(pos) as int] == 0x0a ==> (r is Ok <==> bytes@[*old(pos) + 1] <= 1),
        *old(pos) + 9 <= bytes@.len() && bytes@[*old(pos) as int] == 0x04 ==> r matches Ok(Atom::ExactIeee754Bits(_)),
        *old(pos) + 9 <= bytes@.len() && bytes@[*old(pos) as int] == 0x05 ==> r matches Ok(Atom::MachineFloatBits(_)),
        forall|v: u64|
            *old(pos) < bytes@.len() && bytes@[*old(pos) as int] == 0x0c && #[trigger] varint_at(bytes@, *old(pos) + 1, v)
                ==> (r is Ok <==> v <= u32::MAX),
        forall|v: u64|
            *old(pos) < bytes@.len() && bytes@[*old(pos) as int] == 0x07 && #[trigger] blob_at(
                bytes@,
                *old(pos) + 1,
                v,
                budget.max_atom_bytes as int,
            ) && valid_utf8(blob_body(bytes@, *old(pos) + 1, v)) ==> r matches Ok(Atom::String(_)),
        forall|v: u64|
            *old(pos) < bytes@.len() && bytes@[*old(pos) as int] == 0x01 && #[trigger] blob_at(
                bytes@,
                *old(pos) + 1,
                v,
                budget.max_atom_bytes as int,
            ) && valid_utf8(blob_body(bytes@, *old(pos) + 1, v)) ==> r matches Ok(Atom::Integer(_)),
        forall|v: u64|
            *old(pos) < bytes@.len() && bytes@[*old(pos) as int] == 0x08 && #[trigger] blob_at(
                bytes@,
                *old(pos) + 1,
                v,
                budget.max_atom_bytes as int,
            ) ==> r matches Ok(Atom::Bytes(_)),
{
    let limit = budget.max_atom_bytes;
    let tag = read_u8(bytes, pos)?;
    if tag == 0x01 {
        Ok(Atom::Integer(read_text(bytes, pos, limit)?))
    } else if tag == 0x02 {
        let n_text = read_text(bytes, pos, limit)?;
        let numerator = match parse_decimal_integer(n_text.as_str()) {
            Some(v) => v,
            None => {
                return Err(TermError::InvalidWire("rational numerator"));
            },
        };
        let d_text = read_text(bytes, pos, limit)?;
        let d_chars = crate::units::chars_of(d_text.as_str());
        if d_chars.len() > 0 && d_chars[0] == '-' {
            return Err(TermError::InvalidWire("rational denominator"));
        }
        let denominator = match parse_decimal_integer(d_text.as_str()) {
            Some(v) => v,
            None => {
                return Err(TermError::InvalidWire("rational denominator"));
            },
        };
        if denominator.is_zero() {
            return Err(TermError::InvalidWire("zero rational denominator"));
        }
        Ok(Atom::Rational(numerator.div(&denominator)))
    } else if tag == 0x03 {
        let coefficient = read_text(bytes, pos, limit)?;
        let scale = read_zigzag(bytes, pos)?;
        Ok(Atom::ExactDecimal(ExactDecimal::from_wire(coefficient, scale)))
    } else if tag == 0x04 {
        Ok(Atom::ExactIeee754Bits(read_be64(bytes, pos)?))
    } else if tag == 0x05 {
        Ok(Atom::MachineFloatBits(read_be64(bytes, pos)?))
    } else if tag == 0x06 {
        let significand = read_text(bytes, pos, limit)?;
        let exponent10 = read_zigzag(bytes, pos)?;
        let bits = read_varint(bytes, pos)?;
        if bits > u32::MAX as u64 {
            return Err(TermError::InvalidWire("precision overflow"));
        }
        Ok(Atom::PrecisionReal(PrecisionReal::from_wire(significand, exponent10, bits as u32)))
    } else if tag == 0x07 {
        Ok(Atom::String(read_text(bytes, pos, limit)?))
    } else if tag == 0x08 {
        Ok(Atom::Bytes(read_blob(bytes, pos, limit)?))
    } else if tag == 0x09 {
        let namespace = read_text(bytes, pos, limit)?;
        let name = read_text(bytes, pos, limit)?;
        Ok(Atom::Symbol(SymbolName { namespace, name }))
    } else if tag == 0x0a {
        let b = read_u8(bytes, pos)?;
        if b == 0 {
            Ok(Atom::Boolean(false))
        } else if b == 1 {
            Ok(Atom::Boolean(true))
        } else {
            Err(TermError::InvalidWire("boolean value"))
        }
    } else if tag == 0x0b {
        let c = read_u8(bytes, pos)?;
        Ok(Atom::Constant(decode_constant(c)?))
    } else if tag == 0x0c {
        let v = read_varint(bytes, pos)?;
        if v > u32::MAX as u64 {
            return Err(TermError::InvalidWire("bound-variable overflow"));
        }
        Ok(Atom::BoundVariable(v as u32))
    } else {
        Err(TermError::InvalidWire("atom tag"))
    }
}

/// A reference to an already decoded term.
fn read_id(bytes: &[u8], pos: &mut usize, terms: &Vec<TermId>) -> (r: Result<TermId, TermError>)
    requires
        *old(pos) <= bytes@.len(),
    ensures
        *final(pos) <= bytes@.len(),
        r is Ok ==> *old(pos) < *final(pos),
        r matches Ok(id) ==> exists|i: u64|
            #[trigger] varint_within(bytes@, *old(pos) as int, *final(pos) as int, i, terms@.len() as int) && id
                == terms@[i as int],
        forall|v: u64| #[trigger] varint_at(bytes@, *old(pos) as int, v) ==> (r is Ok <==> v < terms@.len()),
        forall|v: u64|
            #[trigger] varint_at(bytes@, *old(pos) as int, v) && v < terms@.len() ==> r == Ok::<TermId, TermError>(
                terms@[v as int],
            ),
        r matches Ok(id) ==> id_step(bytes@, *old(pos) as int, terms@) == Some((id, *final(pos) as int)),
        r is Err ==> id_step(bytes@, *old(pos) as int, terms@) is None,
{
    let ghost p = *pos;
    let _n = terms.len();
    let index = match read_usize(bytes, pos, "child index overflow") {
        Ok(i) => i,
        Err(e) => {
            return Err(e);
        },
    };
    if index >= terms.len() {
        proof {
            assert forall|v: u64| #[trigger] varint_at(bytes@, p as int, v) implies v == index as u64 by {
                lemma_varint_at_unique(bytes@, p as int, v, index as u64);
            }
        }
        return Err(TermError::InvalidWire("forward or invalid child reference"));
    }
    proof {
        assert(varint_within(bytes@, p as int, *pos as int, index as u64, terms@.len() as int));
        assert forall|v: u64| #[trigger] varint_at(bytes@, p as int, v) implies v == index as u64 by {
            lemma_varint_at_unique(bytes@, p as int, v, index as u64);
        }
        let w = choose|v: u64| #[trigger] varint_at(bytes@, p as int, v) && v < terms@.len();
        assert(varint_at(bytes@, p as int, index as u64) && (index as u64) < terms@.len());
        assert(w == index as u64);
    }
    Ok(terms[index])
}

/// A count within the child budget.
fn read_count(bytes: &[u8], pos: &mut usize, budget: TermBudget) -> (r: Result<usize, TermError>)
    requires
        *old(pos) <= bytes@.len(),
    ensures
        *final(pos) <= bytes@.len(),
        r is Ok ==> *old(pos) < *final(pos),
        r matches Ok(n) ==> varint_within(
            bytes@,
            *old(pos) as int,
            *final(pos) as int,
            n as u64,
            budget.max_children_per_node + 1,
        ),
        forall|v: u64| #[trigger] varint_at(bytes@, *old(pos) as int, v) ==> (r is Ok <==> v <= budget.max_children_per_node),
{
    let ghost p = *pos;
    let count = read_usize(bytes, pos, "child count overflow")?;
    if count > budget.max_children_per_node {
        proof {
            assert forall|v: u64| #[trigger] varint_at(bytes@, p as int, v) implies v == count as u64 by {
                lemma_varint_at_unique(bytes@, p as int, v, count as u64);
            }
        }
        return Err(exceeded("children", budget.max_children_per_node));
    }
    proof {
        assert forall|v: u64| #[trigger] varint_at(bytes@, p as int, v) implies v == count as u64 by {
            lemma_varint_at_unique(bytes@, p as int, v, count as u64);
        }
    }
    Ok(count)
}

/// The reference encoded at `p`, when it names one of `terms`: the term
/// and the position after it.
pub open spec fn id_step(s: Seq<u8>, p: int, terms: Seq<TermId>) -> Option<(TermId, int)> {
    if exists|v: u64| #[trigger] varint_at(s, p, v) && v < terms.len() {
        let v = choose|v: u64| #[trigger] varint_at(s, p, v) && v < terms.len();
        Some((terms[v as int], p + varint_bytes(v as nat).len()))
    } else {
        None
    }
}

/// `n` references read one after the other from `p`: the terms and the
/// position after the last, or `None` when one of them is not a valid
/// reference.
pub open spec fn ids_from(s: Seq<u8>, p: int, n: nat, terms: Seq<TermId>) -> Option<(Seq<TermId>, int)>
    decreases n,
{
    if n == 0 {
        Some((Seq::empty(), p))
    } else {
        match ids_from(s, p, (n - 1) as nat, terms) {
            Some((xs, q)) => match id_step(s, q, terms) {
                Some((id, q2)) => Some((xs.push(id), q2)),
                None => None,
            },
            None => None,
        }
    }
}

/// Once a reference fails, every longer run fails.
proof fn lemma_ids_from_fails(s: Seq<u8>, p: int, n: nat, m: nat, terms: Seq<TermId>)
    requires
        n <= m,
        ids_from(s, p, n, terms) is None,
    ensures
        ids_from(s, p, m, terms) is None,
    decreases m - n,
{
    if n < m {
        lemma_ids_from_fails(s, p, n, (m - 1) as nat, terms);
    }
}

/// A counted list of references.
fn read_ids(bytes: &[u8], pos: &mut usize, terms: &Vec<TermId>, budget: TermBudget) -> (r: Result<
    Vec<TermId>,
    TermError,
>)
    requires
        *old(pos) <= bytes@.len(),
    ensures
        *final(pos) <= bytes@.len(),
        r is Ok ==> *old(pos) < *final(pos),
        r matches Ok(out) ==> exists|c: u64|
            #[trigger] varint_at(bytes@, *old(pos) as int, c) && c <= budget.max_children_per_node && ids_from(
                bytes@,
                *old(pos) + varint_bytes(c as nat).len(),
                c as nat,
                terms@,
            ) == Some((out@, *final(pos) as int)),
        forall|c: u64|
            #[trigger] varint_at(bytes@, *old(pos) as int, c) ==> (r is Ok <==> c <= budget.max_children_per_node
                && ids_from(bytes@, *old(pos) + varint_bytes(c as nat).len(), c as nat, terms@) is Some),
{
    let ghost p = *pos;
    let count = read_count(bytes, pos, budget)?;
    let ghost q0 = *pos as int;
    proof {
        assert forall|c: u64| #[trigger] varint_at(bytes@, p as int, c) implies c == count as u64 by {
            lemma_varint_at_unique(bytes@, p as int, c, count as u64);
        }
        assert(varint_at(bytes@, p as int, count as u64));
    }
    let mut out: Vec<TermId> = Vec::new();
    let mut k: usize = 0;
    while k < count
        invariant
            *pos <= bytes@.len(),
            k <= count,
            ids_from(bytes@, q0, k as nat, terms@) == Some((out@, *pos as int)),
            p == *old(pos),
            p < q0 <= *pos,
            q0 == p + varint_bytes(count as nat).len(),
            varint_at(bytes@, p as int, count as u64),
            forall|c: u64| #[trigger] varint_at(bytes@, p as int, c) ==> c == count as u64,
        decreases count - k,
    {
        let ghost before = *pos;
        let id = match read_id(bytes, pos, terms) {
            Ok(id) => id,
            Err(e) => {
                proof {
                    assert(id_step(bytes@, before as int, terms@) is None);
                    assert(ids_from(bytes@, q0, (k + 1) as nat, terms@) is None);
                    lemma_ids_from_fails(bytes@, q0, (k + 1) as nat, count as nat, terms@);
                }
                return Err(e);
            },
        };
        proof {
            let i = choose|i: u64|
                #[trigger] varint_within(bytes@, before as int, *pos as int, i, terms@.len() as int) && id == terms@[i as int];
            assert(varint_at(bytes@, before as int, i) && i < terms@.len());
            let w = choose|v: u64| #[trigger] varint_at(bytes@, before as int, v) && v < terms@.len();
            lemma_varint_at_unique(bytes@, before as int, i, w);
            assert(id_step(bytes@, before as int, terms@) == Some((id, *pos as int)));
        }
        out.push(id);
        k = k + 1;
    }
    Ok(out)
}

/// An optional reference.
fn read_optional(bytes: &[u8], pos: &mut usize, terms: &Vec<TermId>) -> (r: Result<Option<TermId>, TermError>)
    requires
        *old(pos) <= bytes@.len(),
    ensures
        *final(pos) <= bytes@.len(),
        r is Ok ==> *old(pos) < bytes@.len() && bytes@[*old(pos) as int] <= 1,
        r == Ok::<Option<TermId>, TermError>(None) ==> bytes@[*old(pos) as int] == 0 && *final(pos) == *old(pos) + 1,
        r matches Ok(Some(id)) ==> bytes@[*old(pos) as int] == 1 && exists|i: u64|
            #[trigger] varint_within(bytes@, *old(pos) + 1, *final(pos) as int, i, terms@.len() as int) && id
                == terms@[i as int],
        *old(pos) < bytes@.len() && bytes@[*old(pos) as int] == 0 ==> r == Ok::<Option<TermId>, TermError>(None),
        forall|v: u64|
            *old(pos) < bytes@.len() && bytes@[*old(pos) as int] == 1 && #[trigger] varint_at(bytes@, *old(pos) + 1, v)
                ==> (if v < terms@.len() {
                r == Ok::<Option<TermId>, TermError>(Some(terms@[v as int]))
            } else {
                r is Err
            }),
{
    let tag = read_u8(bytes, pos)?;
    if tag == 0 {
        Ok(None)
    } else if tag == 1 {
        let id = read_id(bytes, pos, terms)?;
        Ok(Some(id))
    } else {
        Err(TermError::InvalidWire("optional tag"))
    }
}

/// The wire tag of a node's kind.
pub open spec fn node_tag(n: TermNode) -> u8 {
    match n {
        TermNode::Atom(_) => 0x01,
        TermNode::Apply { .. } => 0x10,
        TermNode::Relation { .. } => 0x11,
        TermNode::Boolean { .. } => 0x12,
        TermNode::Condition { .. } => 0x13,
        TermNode::Piecewise { .. } => 0x14,
        TermNode::Collection { .. } => 0x15,
        TermNode::OrderedMap { .. } => 0x16,
        TermNode::Index { .. } => 0x17,
        TermNode::Slice { .. } => 0x18,
        TermNode::Rule { .. } => 0x19,
        TermNode::Binder { .. } => 0x1a,
        TermNode::Held { .. } => 0x1b,
    }
}

/// A byte that tags some node kind.
pub open spec fn known_node_tag(t: u8) -> bool {
    t == 0x01 || 0x10 <= t <= 0x1b
}

/// Two references follow each other from `p` to `q`: `a`, then `b`.
pub open spec fn two_ids_at(s: Seq<u8>, p: int, q: int, terms: Seq<TermId>, a: TermId, b: TermId) -> bool {
    match id_step(s, p, terms) {
        Some((x, m)) => x == a && id_step(s, m, terms) == Some((b, q)),
        None => false,
    }
}

/// A reference `a`, then a counted list `xs` of references within
/// `max` entries, from `p` to `q`.
pub open spec fn id_then_ids_at(s: Seq<u8>, p: int, q: int, terms: Seq<TermId>, max: int, a: TermId, xs: Seq<TermId>) -> bool {
    match id_step(s, p, terms) {
        Some((x, m)) => x == a && exists|c: u64|
            #[trigger] varint_at(s, m, c) && c <= max && ids_from(s, m + varint_bytes(c as nat).len(), c as nat, terms)
                == Some((xs, q)),
        None => false,
    }
}

/// A node at the cursor, its references resolved against the terms
/// decoded so far.
fn read_node(bytes: &[u8], pos: &mut usize, terms: &Vec<TermId>, budget: TermBudget) -> (r: Result<
    TermNode,
    TermError,
>)
    requires
        *old(pos) <= bytes@.len(),
    ensures
        *final(pos) <= bytes@.len(),
        r matches Ok(n) ==> *old(pos) < *final(pos) && bytes@[*old(pos) as int] == node_tag(n),
        *old(pos) == bytes@.len() ==> r is Err,
        *old(pos) < bytes@.len() && !known_node_tag(bytes@[*old(pos) as int]) ==> r is Err,
        r matches Ok(TermNode::Atom(a)) ==> bytes@[*old(pos) + 1] == atom_tag(a),
        r matches Ok(TermNode::Held { expression }) ==> id_step(bytes@, *old(pos) + 1, terms@) == Some(
            (expression, *final(pos) as int),
        ),
        r matches Ok(TermNode::Condition { expression, condition }) ==> two_ids_at(
            bytes@,
            *old(pos) + 1,
            *final(pos) as int,
            terms@,
            expression,
            condition,
        ),
        r matches Ok(TermNode::Apply { head, arguments }) ==> id_then_ids_at(
            bytes@,
            *old(pos) + 1,
            *final(pos) as int,
            terms@,
            budget.max_children_per_node as int,
            head,
            arguments@,
        ),
        r matches Ok(TermNode::Index { target, indices }) ==> id_then_ids_at(
            bytes@,
            *old(pos) + 1,
            *final(pos) as int,
            terms@,
            budget.max_children_per_node as int,
            target,
            indices@,
        ),
        *old(pos) < bytes@.len() && bytes@[*old(pos) as int] == 0x1b ==> (r is Ok <==> id_step(
            bytes@,
            *old(pos) + 1,
            terms@,
        ) is Some),
        *old(pos) < bytes@.len() && bytes@[*old(pos) as int] == 0x13 ==> (r is Ok <==> (id_step(
            bytes@,
            *old(pos) + 1,
            terms@,
        ) matches Some((e, m)) && id_step(bytes@, m, terms@) is Some)),
{
    let tag = read_u8(bytes, pos)?;
    if tag == 0x01 {
        Ok(TermNode::Atom(read_atom(bytes, pos, budget)?))
    } else if tag == 0x10 {
        let head = read_id(bytes, pos, terms)?;
        let arguments = read_ids(bytes, pos, terms, budget)?;
        Ok(TermNode::Apply { head, arguments })
    } else if tag == 0x11 {
        let operator = decode_relation(read_u8(bytes, pos)?)?;
        let left = read_id(bytes, pos, terms)?;
        let right = read_id(bytes, pos, terms)?;
        Ok(TermNode::Relation { operator, left, right })
    } else if tag == 0x12 {
        let operator = decode_boolean(read_u8(bytes, pos)?)?;
        let arguments = read_ids(bytes, pos, terms, budget)?;
        Ok(TermNode::Boolean { operator, arguments })
    } else if tag == 0x13 {
        let expression = read_id(bytes, pos, terms)?;
        let condition = read_id(bytes, pos, terms)?;
        Ok(TermNode::Condition { expression, condition })
    } else if tag == 0x14 {
        let count = read_count(bytes, pos, budget)?;
        let mut cases: Vec<PiecewiseCase> = Vec::new();
        let mut k: usize = 0;
        while k < count
            invariant
                *pos <= bytes@.len(),
                *old(pos) < *pos,
                *old(pos) < bytes@.len(),
                tag == bytes@[*old(pos) as int],
                tag == 0x14,
            decreases count - k,
        {
            let value = read_id(bytes, pos, terms)?;
            let condition = read_id(bytes, pos, terms)?;
            cases.push(PiecewiseCase { value, condition });
            k = k + 1;
        }
        let otherwise = read_optional(bytes, pos, terms)?;
        Ok(TermNode::Piecewise { cases, otherwise })
    } else if tag == 0x15 {
        let kind_tag = read_u8(bytes, pos)?;
        let kind = if kind_tag == 0 {
            CollectionKind::Tuple
        } else if kind_tag == 1 {
            CollectionKind::List
        } else if kind_tag == 2 {
            let count = read_count(bytes, pos, budget)?;
            let mut shape: Vec<usize> = Vec::new();
            let mut k: usize = 0;
            while k < count
                invariant
                    *pos <= bytes@.len(),
                    *old(pos) < *pos,
                    *old(pos) < bytes@.len(),
                    tag == bytes@[*old(pos) as int],
                    tag == 0x15,
                decreases count - k,
            {
                shape.push(read_usize(bytes, pos, "array extent overflow")?);
                k = k + 1;
            }
            CollectionKind::Array { shape }
        } else {
            return Err(TermError::InvalidWire("collection tag"));
        };
        let elements = read_ids(bytes, pos, terms, budget)?;
        Ok(TermNode::Collection { kind, elements })
    } else if tag == 0x16 {
        let count = read_count(bytes, pos, budget)?;
        let mut entries: Vec<(TermId, TermId)> = Vec::new();
        let mut k: usize = 0;
        while k < count
            invariant
                *pos <= bytes@.len(),
                *old(pos) < *pos,
                *old(pos) < bytes@.len(),
                tag == bytes@[*old(pos) as int],
                tag == 0x16,
            decreases count - k,
        {
            let key = read_id(bytes, pos, terms)?;
            let value = read_id(bytes, pos, terms)?;
            entries.push((key, value));
            k = k + 1;
        }
        Ok(TermNode::OrderedMap { entries })
    } else if tag == 0x17 {
        let target = read_id(bytes, pos, terms)?;
        let indices = read_ids(bytes, pos, terms, budget)?;
        Ok(TermNode::Index { target, indices })
    } else if tag == 0x18 {
        let target = read_id(bytes, pos, terms)?;
        let start = read_optional(bytes, pos, terms)?;
        let end = read_optional(bytes, pos, terms)?;
        let step = read_optional(bytes, pos, terms)?;
        Ok(TermNode::Slice { target, start, end, step })
    } else if tag == 0x19 {
        let kind = decode_rule(read_u8(bytes, pos)?)?;
        let pattern = read_id(bytes, pos, terms)?;
        let replacement = read_id(bytes, pos, terms)?;
        let condition = read_optional(bytes, pos, terms)?;
        Ok(TermNode::Rule { kind, pattern, replacement, condition })
    } else if tag == 0x1a {
        let kind = decode_binder(read_u8(bytes, pos)?)?;
        let count = read_varint(bytes, pos)?;
        if count > u32::MAX as u64 {
            return Err(TermError::InvalidWire("binder arity overflow"));
        }
        let bounds = read_ids(bytes, pos, terms, budget)?;
        let body = read_id(bytes, pos, terms)?;
        Ok(TermNode::Binder { kind, variable_count: count as u32, bounds, body })
    } else if tag == 0x1b {
        let expression = read_id(bytes, pos, terms)?;
        Ok(TermNode::Held { expression })
    } else {
        Err(TermError::InvalidWire("node tag"))
    }
}

/// The term at `root` has `bytes` as its canonical wire: some traversal
/// of it encodes to exactly these bytes.
pub open spec fn encodes_back(store: TermStore, root: TermId, bytes: Seq<u8>) -> bool {
    exists|order: Seq<TermId>| #[trigger] store.traversal_of(order, root) && store.canonical_wire(order) == bytes
}

/// Are the two byte strings equal?
fn same_bytes(a: &Vec<u8>, b: &[u8]) -> (r: bool)
    ensures
        r == (a@ == b@),
{
    if a.len() != b.len() {
        return false;
    }
    let mut k: usize = 0;
    while k < a.len()
        invariant
            k <= a@.len(),
            a@.len() == b@.len(),
            forall|j: int| 0 <= j < k ==> a@[j] == b@[j],
        decreases a@.len() - k,
    {
        if a[k] != b[k] {
            return false;
        }
        k = k + 1;
    }
    proof {
        assert(a@ =~= b@);
    }
    true
}

/// Decode a complete canonical wire into a fresh store whose handles
/// carry `store_id`. Decoding fails closed: a wire past the wire budget,
/// without the schema header, malformed, with forward references,
/// trailing bytes, or any node that is not in canonical form is refused.
/// A decoded term encodes back to exactly the given bytes.
pub fn decode_canonical_term(bytes: &[u8], budget: TermBudget, store_id: u64) -> (r: Result<(TermStore, TermId), TermError>)
    ensures
        bytes@.len() > budget.max_wire_bytes ==> r == Err::<(TermStore, TermId), TermError>(
            TermError::BudgetExceeded { resource: "wire bytes", limit: budget.max_wire_bytes },
        ),
        bytes@.len() <= budget.max_wire_bytes && (bytes@.len() < 16 || bytes@.subrange(0, 16) != wire_header()) ==> r
            is Err,
        r matches Ok(p) ==> p.0.wf(),
        r matches Ok(p) ==> p.0.store_id() == store_id,
        r matches Ok(p) ==> p.0.contains(p.1),
        r matches Ok(p) ==> encodes_back(p.0, p.1, bytes@),
{
    if bytes.len() > budget.max_wire_bytes {
        return Err(exceeded("wire bytes", budget.max_wire_bytes));
    }
    let mut pos: usize = 0;
    let start = take(bytes, &mut pos, 16)?;
    let header: Vec<u8> = vec![82u8, 69, 83, 79, 76, 86, 69, 78, 84, 45, 84, 69, 82, 77, 0, 1];
    let mut i: usize = 0;
    while i < 16
        invariant
            i <= 16,
            bytes@.len() <= budget.max_wire_bytes,
            start == 0,
            pos == 16,
            16 <= bytes@.len(),
            header@ == wire_header(),
            forall|j: int| 0 <= j < i ==> bytes@[j] == wire_header()[j],
        decreases 16 - i,
    {
        if bytes[i] != header[i] {
            proof {
                assert(bytes@.subrange(0, 16)[i as int] != wire_header()[i as int]);
            }
            return Err(TermError::InvalidWire("schema header"));
        }
        i = i + 1;
    }
    proof {
        assert(bytes@.subrange(0, 16) =~= wire_header());
    }
    let count = read_usize(bytes, &mut pos, "node count overflow")?;
    if count == 0 {
        return Err(TermError::InvalidWire("empty term graph"));
    }
    if count > budget.max_nodes {
        return Err(exceeded("nodes", budget.max_nodes));
    }
    let mut store = TermStore::new(store_id);
    let mut canonical: Vec<TermId> = Vec::new();
    let mut index: usize = 0;
    while index < count
        invariant
            store.wf(),
            store.store_id() == store_id,
            bytes@.len() <= budget.max_wire_bytes,
            pos <= bytes@.len(),
            index <= count,
            canonical@.len() == index,
            forall|k: int| 0 <= k < index ==> store.contains(#[trigger] canonical@[k]),
        decreases count - index,
    {
        let node = read_node(bytes, &mut pos, &canonical, budget)?;
        let term = store.intern(node, budget)?;
        if term.index() != index {
            return Err(TermError::NonCanonicalWire);
        }
        canonical.push(term);
        index = index + 1;
    }
    let root_index = read_usize(bytes, &mut pos, "root index overflow")?;
    if root_index != count - 1 || pos != bytes.len() {
        return Err(TermError::InvalidWire("root index or trailing bytes"));
    }
    let root = canonical[root_index];
    let encoded = store.canonical_bytes(root, budget)?;
    if !same_bytes(&encoded, bytes) {
        return Err(TermError::NonCanonicalWire);
    }
    let ghost order = choose|order: Seq<TermId>|
        #[trigger] store.traversal_of(order, root) && store.canonical_wire(order) == encoded@;
    let result = (store, root);
    proof {
        assert(result.0.traversal_of(order, result.1));
        assert(result.0.canonical_wire(order) == bytes@);
        assert(encodes_back(result.0, result.1, bytes@));
    }
    Ok(result)
}

} // verus!
