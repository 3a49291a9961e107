//! A binary BCH cyclic error-correcting codec.
//!
//! Given parameters `(n, k, t)` and a primitive polynomial over GF(2),
//! the crate builds the field's power and addition tables and the
//! generator polynomial, encodes messages of up to `k` bits into
//! codewords, and decodes received words of up to `n` bits, correcting
//! errors either by a cyclic syndrome trial or by the Berlekamp
//! iteration followed by a root search.  Every bit sequence is read
//! leftmost bit = highest-degree coefficient.

pub mod bch_bitvec;
pub mod berlekamp_decoder;
pub mod bits;
pub mod bitvec_operations;
pub mod coder;
pub mod common;
pub mod decoder;
pub mod encoder;
pub mod poly;
pub mod simple_decoder;

use vstd::prelude::*;

verus! {

/// Failure cases of the codec, surfaced as values.
#[derive(Clone, Copy, Debug, PartialEq, Eq, Structural)]
pub enum BchError {
    InvalidParameters,
    MessageTooLong,
    InputTooLong,
    DivisionByZero,
    DecodeFailure,
}

} // verus!
