//! A single-error-correcting Hamming code over arbitrary-length bit
//! sequences, together with a small length-prefixed framing format for
//! carrying a codeword as a self-describing byte buffer.
//!
//! The crate is organised leaf-first:
//! - [`bitvec`] stores an ordered bit sequence densely, eight bits per byte,
//!   most significant bit first within each byte;
//! - [`hamming`] places parity bits at the power-of-two positions of a
//!   codeword and recovers data from a codeword with at most one flipped bit;
//! - [`proto`] wraps a codeword in a fixed header (magic marker, version and
//!   two length fields) and validates that header on the way back in;
//! - [`convert`] turns text and strings of binary digits into bit sequences
//!   and back.

pub mod bitvec;
pub mod convert;
pub mod hamming;
pub mod proto;
