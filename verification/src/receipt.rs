//! Content-addressed receipts for algebra operations: the digests of the
//! canonical JSON encodings of an operation's input and output.
use vstd::prelude::*;

verus! {

/// The algebra operation a receipt attests.
#[derive(Clone, Copy, Debug, PartialEq, Eq, Structural)]
pub enum AlgebraOperation {
    Canonicalize,
    Differentiate,
    Resultant,
    IsolateRealRoots,
}

/// A receipt: schema, operation, and the input and output digests.
#[derive(Clone, Debug, PartialEq, Eq)]
pub struct AlgebraReceipt {
    pub schema: String,
    pub operation: AlgebraOperation,
    pub input_digest: String,
    pub output_digest: String,
}

/// The receipt schema tag.
pub open spec fn receipt_schema() -> Seq<char> {
    seq!['r', 'e', 's', 'o', 'l', 'v', 'e', 'n', 't', '-', 'a', 'l', 'g', 'e', 'b', 'r', 'a', '-', 'r', 'e', 'c', 'e', 'i', 'p', 't', '/', '1']
}

/// A lowercase hexadecimal digit.
pub open spec fn is_lower_hex(c: char) -> bool {
    ('0' <= c <= '9') || ('a' <= c <= 'f')
}

/// A digest: 64 lowercase hexadecimal digits.
pub open spec fn is_digest(s: Seq<char>) -> bool {
    s.len() == 64 && forall|i: int| 0 <= i < s.len() ==> is_lower_hex(#[trigger] s[i])
}

/// The 32-byte BLAKE3 hash of `bytes`.
pub uninterp spec fn blake3_hash(bytes: Seq<u8>) -> Seq<u8>;

/// `blake3::hash(bytes)`: the 32 bytes of the BLAKE3 hash of `bytes`.
#[verifier::external_body]
pub(crate) fn blake3_of(bytes: &[u8]) -> (r: [u8; 32])
    ensures
        r@ == blake3_hash(bytes@),
{
    *blake3::hash(bytes).as_bytes()
}

/// The lowercase hexadecimal digit of a value below sixteen.
pub open spec fn hex_digit(v: nat) -> char {
    if v < 10 {
        ((v + 48) as u8) as char
    } else {
        ((v + 87) as u8) as char
    }
}

/// Bytes in lowercase hexadecimal, two digits per byte, high digit first.
pub open spec fn lower_hex(bytes: Seq<u8>) -> Seq<char>
    decreases bytes.len(),
{
    if bytes.len() == 0 {
        seq![]
    } else {
        lower_hex(bytes.drop_last()) + seq![hex_digit(bytes.last() as nat / 16), hex_digit(bytes.last() as nat % 16)]
    }
}

fn hex_char(v: u8) -> (r: char)
    requires
        v < 16,
    ensures
        r == hex_digit(v as nat),
        is_lower_hex(r),
{
    if v < 10 {
        (v + 48) as char
    } else {
        (v + 87) as char
    }
}

proof fn lemma_lower_hex_shape(bytes: Seq<u8>)
    ensures
        lower_hex(bytes).len() == 2 * bytes.len(),
        forall|i: int| 0 <= i < lower_hex(bytes).len() ==> is_lower_hex(#[trigger] lower_hex(bytes)[i]),
    decreases bytes.len(),
{
    if bytes.len() > 0 {
        lemma_lower_hex_shape(bytes.drop_last());
        let b = bytes.last() as nat;
        let prev = lower_hex(bytes.drop_last());
        assert forall|i: int| 0 <= i < lower_hex(bytes).len() implies is_lower_hex(#[trigger] lower_hex(bytes)[i]) by {
            if i >= prev.len() {
                assert(b / 16 < 16);
            } else {
                assert(lower_hex(bytes)[i] == prev[i]);
            }
        }
    }
}

/// The hash in lowercase hexadecimal (`blake3::Hash::to_hex`).
pub(crate) fn hex_of(bytes: &[u8; 32]) -> (r: String)
    ensures
        r@ == lower_hex(bytes@),
        is_digest(r@),
{
    let mut cs: Vec<char> = Vec::new();
    let mut i: usize = 0;
    while i < 32
        invariant
            i <= 32,
            bytes@.len() == 32,
            cs@ == lower_hex(bytes@.subrange(0, i as int)),
        decreases 32 - i,
    {
        let b = bytes[i];
        cs.push(hex_char(b / 16));
        cs.push(hex_char(b % 16));
        proof {
            let sub = bytes@.subrange(0, i + 1);
            assert(sub.drop_last() =~= bytes@.subrange(0, i as int));
            assert(sub.last() == b);
            assert(cs@ =~= lower_hex(sub));
        }
        i = i + 1;
    }
    proof {
        assert(bytes@.subrange(0, 32) =~= bytes@);
        lemma_lower_hex_shape(bytes@);
    }
    crate::units::string_of(cs.as_slice())
}

/// The BLAKE3 digest of `bytes` as 64 lowercase hexadecimal digits.
fn blake3_digest(bytes: &[u8]) -> (r: String)
    ensures
        r@ == lower_hex(blake3_hash(bytes@)),
        is_digest(r@),
{
    let h = blake3_of(bytes);
    hex_of(&h)
}

/// The receipt schema tag.
fn schema_tag() -> (r: String)
    ensures
        r@ == receipt_schema(),
{
    let r = "resolvent-algebra-receipt/1".to_owned();
    proof {
        reveal_strlit("resolvent-algebra-receipt/1");
        assert(r@ =~= receipt_schema());
    }
    r
}

/// Is `digest` 64 lowercase hexadecimal digits?
fn valid_digest(digest: &str) -> (r: bool)
    ensures
        r == is_digest(digest@),
{
    let cs = crate::units::chars_of(digest);
    if cs.len() != 64 {
        return false;
    }
    let mut i: usize = 0;
    while i < cs.len()
        invariant
            i <= cs@.len(),
            cs@ == digest@,
            forall|j: int| 0 <= j < i ==> is_lower_hex(#[trigger] cs@[j]),
        decreases cs@.len() - i,
    {
        let c = cs[i];
        if !(('0' <= c && c <= '9') || ('a' <= c && c <= 'f')) {
            return false;
        }
        i = i + 1;
    }
    true
}

/// The fields of a receipt read back from the wire are accepted: the
/// schema tag matches and both digests are 64 lowercase hexadecimal digits.
pub open spec fn receipt_fields_valid(schema: Seq<char>, input_digest: Seq<char>, output_digest: Seq<char>) -> bool {
    schema == receipt_schema() && is_digest(input_digest) && is_digest(output_digest)
}

impl AlgebraReceipt {
    /// The receipt for a polynomial operation with a rational scalar output,
    /// from the canonical JSON encodings of its input projection
    /// `{"coeffs": [...]}` and of its output: both digests are BLAKE3 hashes
    /// of those bytes. Every receipt issued this way passes the wire check
    /// of [`AlgebraReceipt::from_fields`].
    pub fn for_polynomial(operation: AlgebraOperation, input_json: &[u8], output_json: &[u8]) -> (r: AlgebraReceipt)
        ensures
            r.schema@ == receipt_schema(),
            r.operation == operation,
            r.input_digest@ == lower_hex(blake3_hash(input_json@)),
            r.output_digest@ == lower_hex(blake3_hash(output_json@)),
            receipt_fields_valid(r.schema@, r.input_digest@, r.output_digest@),
    {
        AlgebraReceipt {
            schema: schema_tag(),
            operation,
            input_digest: blake3_digest(input_json),
            output_digest: blake3_digest(output_json),
        }
    }

    /// A receipt read from the wire, accepted only with the receipt schema
    /// tag and two well-formed digests.
    pub fn from_fields(schema: String, operation: AlgebraOperation, input_digest: String, output_digest: String) -> (r:
        Option<AlgebraReceipt>)
        ensures
            r is Some <==> receipt_fields_valid(schema@, input_digest@, output_digest@),
            r matches Some(x) ==> x.schema@ == schema@ && x.operation == operation && x.input_digest@ == input_digest@
                && x.output_digest@ == output_digest@,
    {
        let tag = schema_tag();
        if schema != tag || !valid_digest(input_digest.as_str()) || !valid_digest(output_digest.as_str()) {
            return None;
        }
        Some(AlgebraReceipt { schema, operation, input_digest, output_digest })
    }
}

} // verus!
