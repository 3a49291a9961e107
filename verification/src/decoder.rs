//! The decoding interface shared by the two decoders.

use vstd::prelude::*;
use crate::bits::BitVec;
use crate::BchError;

verus! {

/// A decoder takes a received word and returns the decoded message
/// together with the error pattern it corrected.  The exact contracts
/// live on the concrete decoders' inherent `decode` methods.
pub trait Decoder {
    fn decode(self, encoded: &BitVec) -> Result<(BitVec, BitVec), BchError>;
}

} // verus!
