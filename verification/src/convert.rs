//! Conversions at the edge of the codec: UTF-8 text to bits and back, and
//! strings of `0`/`1` digits to bits and back.
//!
//! All four functions speak about the UTF-8 bytes of their strings, so
//! that a text round trip through the codec is a statement about byte
//! sequences.

use vstd::prelude::*;

verus! {

use crate::bitvec::{bit_of, bits_of, packed_bytes, BitVec};
use vstd::string::StringSliceAdditionalSpecFns;
use vstd::utf8::{decode_utf8, valid_utf8};

/// The failure of reading a string of binary digits.
#[derive(Debug, PartialEq, Eq, Structural)]
pub enum ConvertError {
    /// A character other than `0` or `1` was met.
    InvalidDigit,
}

/// What [`bits_to_string`] returns when the packed bytes do not form
/// valid UTF-8.
pub open spec fn invalid_utf8_marker() -> Seq<char> {
    "Invalid UTF-8"@
}

/// Relies on `String::from_utf8`: it returns `Ok` exactly when the bytes
/// are a valid UTF-8 encoding, and the string then holds their decoding.
#[verifier::external_body]
fn string_from_utf8(bytes: Vec<u8>) -> (r: Option<String>)
    ensures
        r matches Some(s) ==> valid_utf8(bytes@) && s@ == decode_utf8(bytes@),
        r is None ==> !valid_utf8(bytes@),
{
    String::from_utf8(bytes).ok()
}

/// A sequence of bytes below `0x80` is valid UTF-8 and decodes to one
/// character per byte.
proof fn lemma_ascii_utf8(bytes: Seq<u8>)
    requires
        forall|i: int| 0 <= i < bytes.len() ==> bytes[i] < 0x80,
    ensures
        valid_utf8(bytes),
        decode_utf8(bytes) == Seq::new(bytes.len(), |i: int| bytes[i] as char),
    decreases bytes.len(),
{
    if bytes.len() == 0 {
        assert(decode_utf8(bytes) =~= Seq::new(bytes.len(), |i: int| bytes[i] as char));
    } else {
        let b0 = bytes[0];
        assert(vstd::utf8::is_leading_byte_width_1(b0));
        assert(vstd::utf8::codepoint_width_1(b0) == b0 as u32) by (bit_vector)
            requires
                b0 < 0x80,
        ;
        assert(vstd::utf8::valid_first_scalar(bytes));
        assert(vstd::utf8::length_of_first_scalar(bytes) == 1);
        let rest = vstd::utf8::pop_first_scalar(bytes);
        assert(rest =~= bytes.subrange(1, bytes.len() as int));
        lemma_ascii_utf8(rest);
        assert(decode_utf8(bytes) == seq![b0 as u32 as char] + decode_utf8(rest));
        assert(decode_utf8(bytes) =~= Seq::new(bytes.len(), |i: int| bytes[i] as char));
    }
}

/// Expands a string into its UTF-8 bytes' bits, most significant bit of
/// each byte first.
pub fn string_to_bits(s: &str) -> (r: Vec<bool>)
    requires
        s.spec_bytes().len() <= usize::MAX / 8,
    ensures
        r@ == bits_of(s.spec_bytes(), (8 * s.spec_bytes().len()) as nat),
{
    let bytes = s.as_bytes();
    let n = bytes.len();
    let mut r: Vec<bool> = Vec::with_capacity(8 * n);
    let mut i: usize = 0;
    while i < n
        invariant
            bytes@ == s.spec_bytes(),
            n == bytes@.len(),
            n <= usize::MAX / 8,
            i <= n,
            r@.len() == 8 * i,
            r@ == bits_of(bytes@, (8 * i) as nat),
        decreases n - i,
    {
        let byte = bytes[i];
        let mut j: usize = 0;
        while j < 8
            invariant
                bytes@ == s.spec_bytes(),
                n == bytes@.len(),
                n <= usize::MAX / 8,
                i < n,
                byte == bytes@[i as int],
                j <= 8,
                r@.len() == 8 * i + j,
                r@ == bits_of(bytes@, (8 * i + j) as nat),
            decreases 8 - j,
        {
            let sh: u8 = (7 - j) as u8;
            r.push(((byte >> sh) & 1) == 1);
            j = j + 1;
            proof {
                let t = 8 * (i as int) + j - 1;
                assert(t / 8 == i as int && t % 8 == j - 1) by (nonlinear_arith)
                    requires
                        t == 8 * (i as int) + j - 1,
                        0 <= j - 1 < 8,
                ;
                assert(r@ =~= bits_of(bytes@, (8 * i + j) as nat));
            }
        }
        i = i + 1;
    }
    r
}

/// Packs bits into bytes, eight per byte and zero-padded at the end, and
/// reads them as UTF-8 text; a byte sequence that is not valid UTF-8
/// yields the fixed marker string instead.
pub fn bits_to_string(bits: &[bool]) -> (r: String)
    requires
        bits@.len() <= usize::MAX - 7,
    ensures
        r@ == if valid_utf8(packed_bytes(bits@)) {
            decode_utf8(packed_bytes(bits@))
        } else {
            invalid_utf8_marker()
        },
{
    let owned = vstd::slice::slice_to_vec(bits);
    let packed = BitVec::from_vec(owned).into_inner();
    match string_from_utf8(packed) {
        Some(s) => s,
        None => "Invalid UTF-8".to_owned(),
    }
}

/// Reads a string of `0` and `1` digits as bits, rejecting any other
/// character.
pub fn bytestring_to_bitvec(s: &str) -> (r: Result<Vec<bool>, ConvertError>)
    ensures
        ({
            let sb = s.spec_bytes();
            match r {
                Ok(v) => {
                    &&& forall|i: int| 0 <= i < sb.len() ==> sb[i] == 0x30 || sb[i] == 0x31
                    &&& v@.len() == sb.len()
                    &&& forall|i: int| 0 <= i < sb.len() ==> v@[i] == (sb[i] == 0x31)
                },
                Err(ConvertError::InvalidDigit) => exists|i: int|
                    0 <= i < sb.len() && sb[i] != 0x30 && sb[i] != 0x31,
            }
        }),
{
    let bytes = s.as_bytes();
    let n = bytes.len();
    let mut v: Vec<bool> = Vec::with_capacity(n);
    let mut i: usize = 0;
    while i < n
        invariant
            bytes@ == s.spec_bytes(),
            n == bytes@.len(),
            i <= n,
            v@.len() == i,
            forall|j: int| 0 <= j < i ==> bytes@[j] == 0x30 || bytes@[j] == 0x31,
            forall|j: int| 0 <= j < i ==> v@[j] == (bytes@[j] == 0x31),
        decreases n - i,
    {
        let b = bytes[i];
        if b == 0x30 {
            v.push(false);
        } else if b == 0x31 {
            v.push(true);
        } else {
            return Err(ConvertError::InvalidDigit);
        }
        i = i + 1;
    }
    Ok(v)
}

/// Writes bits as a string of `1` and `0` characters.
pub fn bits_to_bytestring(bits: &[bool]) -> (r: String)
    ensures
        r@ == Seq::new(bits@.len(), |i: int| if bits@[i] { '1' } else { '0' }),
{
    let n = bits.len();
    let mut digits: Vec<u8> = Vec::with_capacity(n);
    let mut i: usize = 0;
    while i < n
        invariant
            n == bits@.len(),
            i <= n,
            digits@.len() == i,
            forall|j: int| 0 <= j < i ==> digits@[j] == (if bits@[j] { 0x31u8 } else { 0x30u8 }),
        decreases n - i,
    {
        if bits[i] {
            digits.push(0x31);
        } else {
            digits.push(0x30);
        }
        i = i + 1;
    }
    proof {
        lemma_ascii_utf8(digits@);
    }
    match string_from_utf8(digits) {
        Some(s) => {
            proof {
                assert(s@ =~= Seq::new(bits@.len(), |i: int| if bits@[i] { '1' } else { '0' }));
            }
            s
        },
        None => {
            proof {
                assert(false);
            }
            String::new()
        },
    }
}

} // verus!