//! A bare codec around an externally supplied generator polynomial.

use vstd::prelude::*;
use crate::bits::BitVec;
use crate::bits::MAX_BITS;
use crate::encoder::encode_core;
use crate::encoder::spec_codec_wf;
use crate::encoder::spec_encode;
use crate::poly::is_zero_poly;
use crate::poly::spec_remainder;
use crate::BchError;

verus! {

/// An encoder over a generator polynomial handed in directly.
pub struct BCHCoder {
    n: i32,
    k: i32,
    gen_poly: BitVec,
}

impl BCHCoder {
    /// The code length.
    pub closed spec fn view_n(&self) -> int {
        self.n as int
    }

    /// The message length.
    pub closed spec fn view_k(&self) -> int {
        self.k as int
    }

    /// The generator polynomial's bits.
    pub closed spec fn view_gen(&self) -> Seq<bool> {
        self.gen_poly@
    }

    /// Consistency of this instance.
    pub open spec fn wf(&self) -> bool {
        spec_codec_wf(self.view_n(), self.view_k(), self.view_gen())
    }

    /// Validates the parameters against the supplied generator: the
    /// generator must be present with a set leading coefficient and its
    /// degree must equal `n - k`.
    pub fn new(n: i32, k: i32, gen_poly: BitVec) -> (r: Result<BCHCoder, BchError>)
        requires
            0 <= k,
            n < MAX_BITS,
        ensures
            r is Ok <==> (gen_poly@.len() > 0 && gen_poly@[0] && n == k + gen_poly@.len() - 1),
            r is Ok ==> r->Ok_0.wf() && r->Ok_0.view_n() == n && r->Ok_0.view_k() == k
                && r->Ok_0.view_gen() == gen_poly@,
            r is Err ==> r->Err_0 == BchError::InvalidParameters,
    {
        let glen = gen_poly.len();
        if glen == 0 || !gen_poly.get_bit(0) {
            return Err(BchError::InvalidParameters);
        }
        let diff: i64 = (n as i64) - (k as i64) + 1;
        if diff < 1 || (diff as u64) != (glen as u64) {
            return Err(BchError::InvalidParameters);
        }
        Ok(BCHCoder { n, k, gen_poly })
    }

    /// Encodes a message of at most `k` bits; see `spec_encode`.
    pub fn encode(self, data: BitVec) -> (res: Result<BitVec, BchError>)
        requires
            self.wf(),
        ensures
            res is Ok <==> data@.len() <= self.view_k(),
            res is Ok ==> (res->Ok_0)@ == spec_encode(
                data@,
                self.view_gen(),
                self.view_n() - self.view_k(),
            ),
            res is Ok ==> spec_remainder((res->Ok_0)@, self.view_gen()) is Ok && is_zero_poly(
                spec_remainder((res->Ok_0)@, self.view_gen())->Ok_0,
            ),
            res is Err ==> res->Err_0 == BchError::MessageTooLong,
    {
        encode_core(self.n, self.k, &self.gen_poly, &data)
    }
}

} // verus!
