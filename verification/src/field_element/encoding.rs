//! The eight-byte encoding of a field element: its canonical representative,
//! least significant byte first.

use super::errors::FieldError;
use super::{FieldElement, PRIME};
use vstd::arithmetic::div_mod::lemma_mod_breakdown;
use vstd::prelude::*;

verus! {

/// The integer that a sequence of bytes encodes, least significant byte
/// first.
pub open spec fn le_value(bytes: Seq<u8>) -> nat
    decreases bytes.len(),
{
    if bytes.len() == 0 {
        0
    } else {
        bytes[0] as nat + 256 * le_value(bytes.drop_first())
    }
}

/// The `len` least significant bytes of `n`, least significant first.
pub open spec fn le_bytes(n: nat, len: nat) -> Seq<u8>
    decreases len,
{
    if len == 0 {
        Seq::empty()
    } else {
        seq![(n % 256) as u8].add(le_bytes(n / 256, (len - 1) as nat))
    }
}

/// The number of values that `len` bytes can encode.
pub open spec fn le_capacity(len: nat) -> nat
    decreases len,
{
    if len == 0 {
        1
    } else {
        256 * le_capacity((len - 1) as nat)
    }
}

/// What decoding a sequence of bytes gives: the element whose representative
/// they encode, and an error where they encode `PRIME` or more.
pub open spec fn decode(bytes: Seq<u8>) -> Result<FieldElement, FieldError> {
    if le_value(bytes) < PRIME {
        Ok(FieldElement::of(le_value(bytes) as int))
    } else {
        Err(FieldError::InvalidValue)
    }
}

/// Encoding in `len` bytes gives `len` bytes, and decoding them gives back
/// the integer, reduced to what `len` bytes can hold.
pub proof fn lemma_le_value_of_le_bytes(n: nat, len: nat)
    ensures
        le_bytes(n, len).len() == len,
        le_value(le_bytes(n, len)) == n % le_capacity(len),
    decreases len,
{
    if len > 0 {
        let rest = le_bytes(n / 256, (len - 1) as nat);
        let cap = le_capacity((len - 1) as nat);
        lemma_le_value_of_le_bytes(n / 256, (len - 1) as nat);
        assert(le_bytes(n, len).drop_first() =~= rest);
        lemma_le_capacity_positive((len - 1) as nat);
        lemma_mod_breakdown(n as int, 256, cap as int);
    }
}

/// Some value can always be encoded.
pub proof fn lemma_le_capacity_positive(len: nat)
    ensures
        le_capacity(len) > 0,
    decreases len,
{
    if len > 0 {
        lemma_le_capacity_positive((len - 1) as nat);
    }
}

/// Bytes encode an integer below their capacity, and encoding that integer
/// in as many bytes gives the same bytes back.
pub proof fn lemma_le_bytes_of_le_value(bytes: Seq<u8>)
    ensures
        le_value(bytes) < le_capacity(bytes.len()),
        le_bytes(le_value(bytes), bytes.len()) == bytes,
    decreases bytes.len(),
{
    if bytes.len() > 0 {
        let rest = bytes.drop_first();
        lemma_le_bytes_of_le_value(rest);
        let v = le_value(bytes);
        assert(v % 256 == bytes[0] && v / 256 == le_value(rest));
        assert(le_bytes(v, bytes.len()) =~= bytes);
    } else {
        assert(le_bytes(0, 0) =~= bytes);
    }
}

/// Eight bytes can encode exactly the values of a `u64`.
pub proof fn lemma_le_capacity_eight()
    ensures
        le_capacity(8) == 0x1_0000_0000_0000_0000,
{
    reveal_with_fuel(le_capacity, 9);
}

/// Decoding the encoding of an element gives the element back.
pub proof fn lemma_decode_encode(a: FieldElement)
    requires
        a.wf(),
    ensures
        decode(le_bytes(a@ as nat, 8)) == Ok::<FieldElement, FieldError>(a),
{
    lemma_le_value_of_le_bytes(a@ as nat, 8);
    lemma_le_capacity_eight();
    a.lemma_of_canonical();
}

/// The encoding of the modulus, or of any integer above it that eight bytes
/// can hold, is refused.
pub proof fn lemma_decode_refuses(n: nat)
    requires
        PRIME <= n <= u64::MAX,
    ensures
        decode(le_bytes(n, 8)) == Err::<FieldElement, FieldError>(FieldError::InvalidValue),
{
    lemma_le_value_of_le_bytes(n, 8);
    lemma_le_capacity_eight();
}

impl FieldElement {
    /// The canonical representative in eight bytes, least significant byte
    /// first.
    pub fn to_bytes(self) -> (r: [u8; 8])
        ensures
            r@ == le_bytes(self@ as nat, 8),
            decode(r@) == Ok::<FieldElement, FieldError>(self),
    {
        let v: u64 = self.value();
        let r: [u8; 8] = [
            (v & 0xff) as u8,
            ((v >> 8) & 0xff) as u8,
            ((v >> 16) & 0xff) as u8,
            ((v >> 24) & 0xff) as u8,
            ((v >> 32) & 0xff) as u8,
            ((v >> 40) & 0xff) as u8,
            ((v >> 48) & 0xff) as u8,
            ((v >> 56) & 0xff) as u8,
        ];
        proof {
            assert({
                &&& v & 0xff == v % 256
                &&& (v >> 8) & 0xff == v / 256 % 256
                &&& (v >> 16) & 0xff == v / 256 / 256 % 256
                &&& (v >> 24) & 0xff == v / 256 / 256 / 256 % 256
                &&& (v >> 32) & 0xff == v / 256 / 256 / 256 / 256 % 256
                &&& (v >> 40) & 0xff == v / 256 / 256 / 256 / 256 / 256 % 256
                &&& (v >> 48) & 0xff == v / 256 / 256 / 256 / 256 / 256 / 256 % 256
                &&& (v >> 56) & 0xff == v / 256 / 256 / 256 / 256 / 256 / 256 / 256 % 256
            }) by (bit_vector);
            reveal_with_fuel(le_bytes, 9);
            assert(r@ =~= le_bytes(v as nat, 8));
            use_type_invariant(self);
            lemma_decode_encode(self);
        }
        r
    }

    /// The element whose canonical representative the eight bytes encode,
    /// least significant byte first. Bytes that encode `PRIME` or more are
    /// refused, not reduced.
    pub fn from_bytes(arr: &[u8; 8]) -> (r: Result<FieldElement, FieldError>)
        ensures
            r == decode(arr@),
    {
        let b0: u64 = arr[0] as u64;
        let b1: u64 = arr[1] as u64;
        let b2: u64 = arr[2] as u64;
        let b3: u64 = arr[3] as u64;
        let b4: u64 = arr[4] as u64;
        let b5: u64 = arr[5] as u64;
        let b6: u64 = arr[6] as u64;
        let b7: u64 = arr[7] as u64;
        let value: u64 = b0 | b1 << 8 | b2 << 16 | b3 << 24 | b4 << 32 | b5 << 40 | b6 << 48 | b7
            << 56;
        proof {
            assert(value == b0 + 256 * (b1 + 256 * (b2 + 256 * (b3 + 256 * (b4 + 256 * (b5 + 256 * (
            b6 + 256 * b7))))))) by (bit_vector)
                requires
                    value == b0 | b1 << 8 | b2 << 16 | b3 << 24 | b4 << 32 | b5 << 40 | b6 << 48
                        | b7 << 56,
                    b0 < 256 && b1 < 256 && b2 < 256 && b3 < 256,
                    b4 < 256 && b5 < 256 && b6 < 256 && b7 < 256,
            ;
            lemma_le_value_eight(arr@);
        }
        if value >= PRIME {
            Err(FieldError::InvalidValue)
        } else {
            Ok(FieldElement::new(value))
        }
    }
}

/// The integer that eight bytes encode, written out.
proof fn lemma_le_value_eight(s: Seq<u8>)
    requires
        s.len() == 8,
    ensures
        le_value(s) == s[0] + 256 * (s[1] + 256 * (s[2] + 256 * (s[3] + 256 * (s[4] + 256 * (s[5]
            + 256 * (s[6] + 256 * s[7])))))),
{
    let s1 = s.drop_first();
    let s2 = s1.drop_first();
    let s3 = s2.drop_first();
    let s4 = s3.drop_first();
    let s5 = s4.drop_first();
    let s6 = s5.drop_first();
    let s7 = s6.drop_first();
    let s8 = s7.drop_first();
    assert(le_value(s8) == 0);
    assert(le_value(s7) == s[7]);
    assert(le_value(s6) == s[6] + 256 * le_value(s7));
    assert(le_value(s5) == s[5] + 256 * le_value(s6));
    assert(le_value(s4) == s[4] + 256 * le_value(s5));
    assert(le_value(s3) == s[3] + 256 * le_value(s4));
    assert(le_value(s2) == s[2] + 256 * le_value(s3));
    assert(le_value(s1) == s[1] + 256 * le_value(s2));
}

} // verus!
