//! The GUS frame protocol: a fixed header — the three magic bytes `GUS`, a
//! version byte, and two 8-byte little-endian length fields — followed by
//! the packed bytes of a Hamming codeword.
//!
//! Encoding runs the Hamming codec, optionally flips one chosen codeword
//! bit (an explicit, caller-supplied parameter, so the frame stays a pure
//! function of its inputs), and prepends the header. Decoding validates
//! each header field with its own error value, rebuilds the codeword, and
//! lets the codec correct at most one flipped bit.

use vstd::prelude::*;

verus! {

use crate::bitvec::{bits_of, packed_bytes, BitVec};
use crate::hamming::{
    codeword_len,
    decoded_data,
    hamming_codeword,
    max_data_bits,
    syndrome,
    Hamming,
    HammingCode,
    HammingError,
};

/// The ways a received frame can be rejected, one for each header rule.
#[derive(Debug, PartialEq, Eq, Structural)]
pub enum FrameError {
    /// The buffer ends before the fixed header does.
    TruncatedHeader,
    /// The first three bytes are not the magic marker.
    InvalidMagic,
    /// The version byte names a version this decoder does not speak.
    UnsupportedVersion,
    /// The length fields disagree with the bytes that follow the header.
    DataLengthMismatch,
}

/// The three magic bytes, ASCII `GUS`.
pub open spec fn magic() -> Seq<u8> {
    seq![0x47u8, 0x55u8, 0x53u8]
}

/// The width of one length field on the wire: fixed, so that frames read
/// the same on every machine.
pub const LENGTH_FIELD_BYTES: usize = 8;

/// The bytes of the fixed frame header: magic, version, two length
/// fields.
pub const HEADER_LEN: usize = 4 + 2 * LENGTH_FIELD_BYTES;

/// The eight little-endian bytes of `x`.
pub open spec fn le_bytes(x: u64) -> Seq<u8> {
    seq![
        x as u8,
        (x >> 8) as u8,
        (x >> 16) as u8,
        (x >> 24) as u8,
        (x >> 32) as u8,
        (x >> 40) as u8,
        (x >> 48) as u8,
        (x >> 56) as u8,
    ]
}

/// The value whose eight little-endian bytes `s` holds.
pub open spec fn u64_of_le(s: Seq<u8>) -> u64 {
    (s[0] + s[1] * 0x100 + s[2] * 0x1_0000 + s[3] * 0x100_0000 + s[4] * 0x1_0000_0000 + s[5]
        * 0x100_0000_0000 + s[6] * 0x1_0000_0000_0000 + s[7] * 0x100_0000_0000_0000) as u64
}

/// Reading the little-endian bytes back gives the value.
pub proof fn lemma_le_bytes_round_trip(x: u64)
    ensures
        u64_of_le(le_bytes(x)) == x,
{
    let b0 = x as u8;
    let b1 = (x >> 8) as u8;
    let b2 = (x >> 16) as u8;
    let b3 = (x >> 24) as u8;
    let b4 = (x >> 32) as u8;
    let b5 = (x >> 40) as u8;
    let b6 = (x >> 48) as u8;
    let b7 = (x >> 56) as u8;
    assert(((b0 + b1 * 0x100 + b2 * 0x1_0000 + b3 * 0x100_0000 + b4 * 0x1_0000_0000 + b5
        * 0x100_0000_0000 + b6 * 0x1_0000_0000_0000 + b7 * 0x100_0000_0000_0000) as u64) == x)
        by (bit_vector)
        requires
            b0 == x as u8,
            b1 == (x >> 8) as u8,
            b2 == (x >> 16) as u8,
            b3 == (x >> 24) as u8,
            b4 == (x >> 32) as u8,
            b5 == (x >> 40) as u8,
            b6 == (x >> 48) as u8,
            b7 == (x >> 56) as u8,
    ;
}

/// The two length fields of a frame: how many packed bytes the codeword
/// takes and how many bits of them are in use.
#[derive(Debug, Clone)]
pub struct Length {
    pub data_length: u64,
    pub bits_length: u64,
}

impl Length {
    /// The sixteen header bytes of the two fields, each little-endian.
    pub fn to_le_bytes(&self) -> (r: [u8; 16])
        ensures
            r@ == le_bytes(self.data_length) + le_bytes(self.bits_length),
    {
        let d = self.data_length;
        let b = self.bits_length;
        let bytes: [u8; 16] = [
            d as u8,
            (d >> 8) as u8,
            (d >> 16) as u8,
            (d >> 24) as u8,
            (d >> 32) as u8,
            (d >> 40) as u8,
            (d >> 48) as u8,
            (d >> 56) as u8,
            b as u8,
            (b >> 8) as u8,
            (b >> 16) as u8,
            (b >> 24) as u8,
            (b >> 32) as u8,
            (b >> 40) as u8,
            (b >> 48) as u8,
            (b >> 56) as u8,
        ];
        proof {
            assert(bytes@ =~= le_bytes(d) + le_bytes(b));
        }
        bytes
    }

    /// Reads the two fields back from the first sixteen bytes of `bytes`,
    /// rejecting a buffer too short to hold them.
    pub fn from_le_bytes(bytes: &[u8]) -> (r: Result<Self, FrameError>)
        ensures
            bytes@.len() >= 16 ==> (r matches Ok(l) && l.data_length == u64_of_le(bytes@.take(8))
                && l.bits_length == u64_of_le(bytes@.subrange(8, 16))),
            bytes@.len() < 16 ==> r == Err::<Length, FrameError>(FrameError::TruncatedHeader),
    {
        if bytes.len() < 16 {
            return Err(FrameError::TruncatedHeader);
        }
        let data_length: u64 = (bytes[0] as u64) + (bytes[1] as u64) * 0x100 + (bytes[2] as u64)
            * 0x1_0000 + (bytes[3] as u64) * 0x100_0000 + (bytes[4] as u64) * 0x1_0000_0000 + (
        bytes[5] as u64) * 0x100_0000_0000 + (bytes[6] as u64) * 0x1_0000_0000_0000 + (
        bytes[7] as u64) * 0x100_0000_0000_0000;
        let bits_length: u64 = (bytes[8] as u64) + (bytes[9] as u64) * 0x100 + (bytes[10] as u64)
            * 0x1_0000 + (bytes[11] as u64) * 0x100_0000 + (bytes[12] as u64) * 0x1_0000_0000 + (
        bytes[13] as u64) * 0x100_0000_0000 + (bytes[14] as u64) * 0x1_0000_0000_0000 + (
        bytes[15] as u64) * 0x100_0000_0000_0000;
        proof {
            let t = bytes@.take(8);
            let s = bytes@.subrange(8, 16);
            assert(t[0] == bytes@[0] && t[1] == bytes@[1] && t[2] == bytes@[2] && t[3] == bytes@[3]
                && t[4] == bytes@[4] && t[5] == bytes@[5] && t[6] == bytes@[6] && t[7]
                == bytes@[7]);
            assert(s[0] == bytes@[8] && s[1] == bytes@[9] && s[2] == bytes@[10] && s[3]
                == bytes@[11] && s[4] == bytes@[12] && s[5] == bytes@[13] && s[6] == bytes@[14]
                && s[7] == bytes@[15]);
        }
        Ok(Length { data_length, bits_length })
    }
}

/// A bit sequence with the bit at `p` flipped.
pub open spec fn flip_bit(bits: Seq<bool>, p: int) -> Seq<bool> {
    bits.update(p, !bits[p])
}

/// The full frame that carries codeword `cw` under `name` and `version`.
pub open spec fn frame_bytes_of(name: Seq<u8>, version: u8, cw: Seq<bool>) -> Seq<u8> {
    name + seq![version] + le_bytes(((cw.len() + 7) / 8) as u64) + le_bytes(cw.len() as u64)
        + packed_bytes(cw)
}

/// The packed-byte count a frame declares.
pub open spec fn frame_data_len(b: Seq<u8>) -> nat {
    u64_of_le(b.subrange(4, 12)) as nat
}

/// The bit count a frame declares.
pub open spec fn frame_bits_len(b: Seq<u8>) -> nat {
    u64_of_le(b.subrange(12, 20)) as nat
}

/// Whether the declared lengths fit the bytes present: enough codeword
/// bytes follow the header, and the bit count fits in them.
pub open spec fn frame_body_ok(b: Seq<u8>) -> bool {
    &&& frame_data_len(b) <= b.len() - 20
    &&& frame_bits_len(b) <= 8 * frame_data_len(b)
}

/// The codeword a valid frame carries.
pub open spec fn frame_codeword(b: Seq<u8>) -> Seq<bool> {
    bits_of(b.subrange(20, 20 + frame_data_len(b) as int), frame_bits_len(b))
}

/// A packet of the GUS protocol: the magic marker, the version, and a
/// payload of bits — the raw data before encode, the recovered data after
/// decode.
#[derive(Debug, Clone)]
pub struct GUSProtocol {
    pub protocol_name: Vec<u8>,
    pub version: u8,
    pub data: BitVec,
}

impl GUSProtocol {
    /// The version this implementation speaks.
    pub const CURRENT_VERSION: u8 = 1;

    /// Wraps payload bits in a packet carrying the current magic and
    /// version.
    pub fn new(data: BitVec) -> (r: Result<Self, HammingError>)
        ensures
            r matches Ok(p) && p.data == data && p.version == 1 && p.protocol_name@ == magic(),
    {
        let mut protocol_name: Vec<u8> = Vec::new();
        protocol_name.push(0x47);
        protocol_name.push(0x55);
        protocol_name.push(0x53);
        proof {
            assert(protocol_name@ =~= magic());
        }
        let version = Self::CURRENT_VERSION;
        Ok(Self { data, protocol_name, version })
    }

    /// Encodes the payload into a frame. `corrupt` names the codeword bit
    /// to flip on the way out, or `None` to send the codeword untouched;
    /// a position outside the codeword is rejected.
    pub fn encode(self, corrupt: Option<usize>) -> (r: Result<Vec<u8>, HammingError>)
        requires
            self.data.wf(),
            self.data@.len() <= max_data_bits(),
        ensures
            ({
                let cw = hamming_codeword(self.data@);
                match corrupt {
                    None => r matches Ok(bytes) && bytes@ == frame_bytes_of(
                        self.protocol_name@,
                        self.version,
                        cw,
                    ),
                    Some(p) => if p < cw.len() {
                        r matches Ok(bytes) && bytes@ == frame_bytes_of(
                            self.protocol_name@,
                            self.version,
                            flip_bit(cw, p as int),
                        )
                    } else {
                        r == Err::<Vec<u8>, HammingError>(HammingError::UnexpectedOutOfBounds)
                    },
                }
            }),
    {
        let ghost cw = hamming_codeword(self.data@);
        let mut encoded_data = match (Hamming).encode(&self.data) {
            Ok(c) => c,
            Err(e) => {
                return Err(e);
            },
        };
        let ghost sent = encoded_data@;
        match corrupt {
            Some(bit_to_corrupt) => {
                let toggled = encoded_data.toggle(bit_to_corrupt);
                match toggled {
                    Ok(u) => u,
                    Err(_) => {
                        return Err(HammingError::UnexpectedOutOfBounds);
                    },
                }
                proof {
                    assert(encoded_data@ == flip_bit(cw, bit_to_corrupt as int));
                    crate::bitvec::lemma_padded_packed(&encoded_data);
                }
            },
            None => {
                proof {
                    crate::bitvec::lemma_padded_packed(&encoded_data);
                }
            },
        }
        let length = Length {
            data_length: encoded_data.true_len() as u64,
            bits_length: encoded_data.len() as u64,
        };
        let length_bytes = length.to_le_bytes();
        let mut encoded: Vec<u8> = Vec::new();
        let mut name = self.protocol_name;
        let ghost name_view = name@;
        encoded.append(&mut name);
        encoded.push(self.version);
        let mut li: usize = 0;
        while li < 16
            invariant
                li <= 16,
                length_bytes@.len() == 16,
                encoded@ == name_view + seq![self.version] + length_bytes@.take(li as int),
            decreases 16 - li,
        {
            encoded.push(length_bytes[li]);
            li = li + 1;
            proof {
                assert(name_view + seq![self.version] + length_bytes@.take((li - 1) as int)
                    + seq![length_bytes@[li - 1]] =~= name_view + seq![self.version]
                    + length_bytes@.take(li as int));
            }
        }
        let mut body = encoded_data.into_inner();
        let ghost body_view = body@;
        encoded.append(&mut body);
        proof {
            let sent_bits = if corrupt is Some {
                flip_bit(cw, corrupt->0 as int)
            } else {
                cw
            };
            assert(length_bytes@.take(16) =~= length_bytes@);
            assert(body_view == packed_bytes(sent_bits));
            assert(sent_bits.len() == cw.len());
            assert(body_view.len() == (cw.len() + 7) / 8);
            assert(encoded@ =~= frame_bytes_of(self.protocol_name@, self.version, sent_bits));
        }
        Ok(encoded)
    }

    /// Parses a frame, validates its header, and decodes the codeword it
    /// carries. The flag reports whether the codec corrected a bit.
    pub fn decode(encoded_data: Vec<u8>) -> (res: Result<(Self, bool), FrameError>)
        requires
            encoded_data@.len() <= usize::MAX / 16,
        ensures
            ({
                let b = encoded_data@;
                match res {
                    Ok(out) => {
                        &&& b.len() >= 20
                        &&& b.take(3) == magic()
                        &&& b[3] == 1
                        &&& frame_body_ok(b)
                        &&& out.0.protocol_name@ == magic()
                        &&& out.0.version == 1
                        &&& out.0.data@ == decoded_data(frame_codeword(b))
                        &&& out.0.data.wf()
                        &&& out.1 == (syndrome(frame_codeword(b)) != 0)
                    },
                    Err(FrameError::TruncatedHeader) => b.len() < 20,
                    Err(FrameError::InvalidMagic) => b.len() >= 20 && b.take(3) != magic(),
                    Err(FrameError::UnsupportedVersion) => b.len() >= 20 && b.take(3) == magic()
                        && b[3] != 1,
                    Err(FrameError::DataLengthMismatch) => b.len() >= 20 && b.take(3) == magic()
                        && b[3] == 1 && !frame_body_ok(b),
                }
            }),
    {
        let ghost b = encoded_data@;
        if encoded_data.len() < HEADER_LEN {
            return Err(FrameError::TruncatedHeader);
        }
        let magic_ok = encoded_data[0] == 0x47 && encoded_data[1] == 0x55 && encoded_data[2]
            == 0x53;
        proof {
            if magic_ok {
                assert(b.take(3) =~= magic());
            } else {
                assert(b.take(3) =~= seq![b[0], b[1], b[2]]);
            }
        }
        if !magic_ok {
            return Err(FrameError::InvalidMagic);
        }
        let version = encoded_data[3];
        if version != Self::CURRENT_VERSION {
            return Err(FrameError::UnsupportedVersion);
        }
        let header_rest = vstd::slice::slice_subrange(encoded_data.as_slice(), 4, HEADER_LEN);
        let length = match Length::from_le_bytes(header_rest) {
            Ok(l) => l,
            Err(_) => {
                return Err(FrameError::TruncatedHeader);
            },
        };
        proof {
            assert(header_rest@.take(8) =~= b.subrange(4, 12));
            assert(header_rest@.subrange(8, 16) =~= b.subrange(12, 20));
        }
        let remaining = encoded_data.len() - HEADER_LEN;
        if length.data_length > remaining as u64 {
            return Err(FrameError::DataLengthMismatch);
        }
        let data_length = length.data_length as usize;
        if length.bits_length > 8 * length.data_length {
            return Err(FrameError::DataLengthMismatch);
        }
        let bits_length = length.bits_length as usize;
        let body_slice = vstd::slice::slice_subrange(
            encoded_data.as_slice(),
            HEADER_LEN,
            HEADER_LEN + data_length,
        );
        let body = vstd::slice::slice_to_vec(body_slice);
        let data = BitVec::from_bytes(body, bits_length);
        proof {
            assert(data@ == frame_codeword(b));
            assert(frame_codeword(b).len() <= max_data_bits());
        }
        let decoded = match (Hamming).decode(&data) {
            Ok(d) => d,
            Err(_) => {
                return Err(FrameError::DataLengthMismatch);
            },
        };
        let corrected_error = decoded.1 != 0;
        let packet = match Self::new(decoded.0) {
            Ok(p) => p,
            Err(_) => {
                return Err(FrameError::DataLengthMismatch);
            },
        };
        Ok((packet, corrected_error))
    }
}

/// Framing round trip: a frame built from `data` — with no flipped bit, or
/// with exactly one — passes every header check, carries that codeword,
/// and decodes back to `data`; the syndrome is nonzero exactly when a bit
/// was flipped.
pub proof fn lemma_frame_round_trip(data: Seq<bool>, corrupt: Option<int>)
    requires
        data.len() <= max_data_bits(),
        corrupt matches Some(p) ==> 0 <= p < codeword_len(data.len()),
    ensures
        ({
            let cw = match corrupt {
                Some(p) => flip_bit(hamming_codeword(data), p),
                None => hamming_codeword(data),
            };
            let fb = frame_bytes_of(magic(), 1u8, cw);
            &&& fb.len() >= 20
            &&& fb.take(3) == magic()
            &&& fb[3] == 1
            &&& frame_body_ok(fb)
            &&& frame_codeword(fb) == cw
            &&& decoded_data(frame_codeword(fb)) == data
            &&& (syndrome(frame_codeword(fb)) != 0 <==> corrupt is Some)
        }),
{
    crate::hamming::lemma_hamming_round_trip(data);
    let n = codeword_len(data.len());
    let cw = match corrupt {
        Some(p) => flip_bit(hamming_codeword(data), p),
        None => hamming_codeword(data),
    };
    let fb = frame_bytes_of(magic(), 1u8, cw);
    let dl = (n + 7) / 8;
    assert(cw.len() == n);
    assert(packed_bytes(cw).len() == dl);
    assert(fb.len() == 20 + dl);
    assert(fb.take(3) =~= magic());
    assert(fb[3] == 1);
    assert(n < 0x8000_0000_0000_0000) by {
        crate::hamming::lemma_parity_count_fits(data.len());
    }
    lemma_le_bytes_round_trip(dl as u64);
    lemma_le_bytes_round_trip(n as u64);
    assert(fb.subrange(4, 12) =~= le_bytes(dl as u64));
    assert(fb.subrange(12, 20) =~= le_bytes(n as u64));
    assert(frame_data_len(fb) == dl);
    assert(frame_bits_len(fb) == n);
    assert(frame_body_ok(fb)) by {
        assert(n <= 8 * ((n + 7) / 8)) by (nonlinear_arith);
    }
    assert(fb.subrange(20, 20 + dl as int) =~= packed_bytes(cw));
    crate::bitvec::lemma_bits_of_packed(cw);
    assert(frame_codeword(fb) == cw);
    match corrupt {
        Some(p) => {
            crate::hamming::lemma_hamming_corrects_single_flip(data, (p + 1) as nat);
            assert(cw == hamming_codeword(data).update(
                p,
                !hamming_codeword(data)[p],
            ));
            assert(syndrome(cw) == p + 1);
        },
        None => {},
    }
}

} // verus!