//! Polynomial operations as methods on the bit-vector type.

use vstd::prelude::*;
use crate::bits::BitVec;
use crate::bits::MAX_BITS;
use crate::bitvec_operations;
use crate::poly::pxor;
use crate::poly::spec_cyclic;
use crate::poly::spec_remainder;
use crate::poly::strip;
use crate::BchError;

verus! {

/// The bit-polynomial operations of this codec, on the codec's bit-vector
/// type.  Contracts are stated over `bit_seq`, the bits a value holds.
pub trait BCHBitVec {
    /// The bits this value holds, leftmost first.
    spec fn bit_seq(&self) -> Seq<bool>;

    /// Sum over GF(2): the shorter operand is zero-extended on the high
    /// side, then the operands are exclusive-ored elementwise.
    fn finite_add(&self, vec: &BitVec) -> (r: BitVec)
        requires
            self.bit_seq().len() <= MAX_BITS,
            vec@.len() <= MAX_BITS,
        ensures
            r@ == pxor(self.bit_seq(), vec@),
    ;

    /// Drops leading zero coefficients; the all-zero polynomial becomes
    /// empty.
    fn truncate_preceding_zeros(&mut self)
        requires
            old(self).bit_seq().len() <= MAX_BITS,
        ensures
            final(self).bit_seq() == strip(old(self).bit_seq()),
    ;

    /// Zero-extends on the high side by `n` bits.
    fn precede_with_zeros(&mut self, n: usize)
        requires
            old(self).bit_seq().len() + n <= MAX_BITS,
        ensures
            final(self).bit_seq() == Seq::new(n as nat, |i: int| false) + old(self).bit_seq(),
    ;

    /// Remainder of long division by `divisor_orig`; see
    /// `bitvec_operations::remainder_divide` for the exact cases.
    fn remainder_divide(&self, divisor_orig: &BitVec) -> (res: Result<BitVec, BchError>)
        requires
            self.bit_seq().len() <= MAX_BITS,
            divisor_orig@.len() <= MAX_BITS,
        ensures
            res is Ok <==> spec_remainder(self.bit_seq(), divisor_orig@) is Ok,
            res is Ok ==> (res->Ok_0)@ == spec_remainder(self.bit_seq(), divisor_orig@)->Ok_0,
            res is Err ==> res->Err_0 == BchError::DivisionByZero,
    ;

    /// Rotates by `n` positions: positive `n` rotates towards the front,
    /// negative towards the back.
    fn shift_cyclic(&mut self, n: i32)
        requires
            old(self).bit_seq().len() <= MAX_BITS,
        ensures
            final(self).bit_seq() == spec_cyclic(old(self).bit_seq(), n as int),
    ;
}

impl BCHBitVec for BitVec {
    open spec fn bit_seq(&self) -> Seq<bool> {
        self@
    }

    fn finite_add(&self, vec: &BitVec) -> (r: BitVec) {
        let la = self.len();
        let lb = vec.len();
        let (mut a, b) = if la >= lb {
            let mut bx = vec.clone_bits();
            bx.precede_with_zeros(la - lb);
            (self.clone_bits(), bx)
        } else {
            let mut ax = self.clone_bits();
            ax.precede_with_zeros(lb - la);
            (ax, vec.clone_bits())
        };
        bitvec_operations::xor_in_place(&mut a, &b);
        proof {
            crate::poly::lemma_pxor_coeff(self@, vec@);
            let l = if self@.len() >= vec@.len() {
                self@.len() as int
            } else {
                vec@.len() as int
            };
            assert forall|i: int| 0 <= i < l implies a@[i] == pxor(self@, vec@)[i] by {
                assert(pxor(self@, vec@)[i] == (crate::poly::coeff(self@, l - 1 - i) != crate::poly::coeff(vec@, l - 1 - i)));
            }
            assert(a@ =~= pxor(self@, vec@));
        }
        a
    }

    fn truncate_preceding_zeros(&mut self) {
        let t = bitvec_operations::truncate(self.clone_bits());
        *self = t;
    }

    fn precede_with_zeros(&mut self, n: usize) {
        let mut r = BitVec::zeros(n);
        let len = self.len();
        let mut i: usize = 0;
        while i < len
            invariant
                i <= len,
                len == old(self)@.len(),
                self@ == old(self)@,
                len + n <= MAX_BITS,
                r@ == Seq::new(n as nat, |k: int| false) + old(self)@.subrange(0, i as int),
            decreases len - i,
        {
            r.push(self.get_bit(i));
            i = i + 1;
            proof {
                assert(r@ =~= Seq::new(n as nat, |k: int| false) + old(self)@.subrange(
                    0,
                    i as int,
                ));
            }
        }
        proof {
            assert(old(self)@.subrange(0, len as int) =~= old(self)@);
        }
        *self = r;
    }

    fn remainder_divide(&self, divisor_orig: &BitVec) -> (res: Result<BitVec, BchError>) {
        bitvec_operations::remainder_divide(self, divisor_orig)
    }

    fn shift_cyclic(&mut self, n: i32) {
        bitvec_operations::shift_cyclic(self, n);
    }
}

} // verus!
