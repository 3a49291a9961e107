//! The codec's bit-polynomial type and its trusted boundary.
//!
//! Every polynomial over GF(2) is an ordered sequence of bits, leftmost bit =
//! highest-degree coefficient.  The bits live in `bitvec::vec::BitVec`, the
//! compressed bit storage of the `bitvec` crate; Verus sees that storage
//! opaquely through the spec function `bits_of`, and the few `external_body`
//! methods below are the only places that touch the crate directly.
//! Everything else in this library is verified against `bits_of`.

use vstd::prelude::*;

verus! {

/// Hard cap on bit-vector lengths handled by this library.  It lies far
/// below `bitvec`'s own maximum encodable length (`usize::MAX / 8`), so a
/// `push` below this bound cannot panic.
pub const MAX_BITS: usize = 0x0800_0000;

/// A sequence of bits backed by `bitvec`'s compressed storage.
#[verifier::external_body]
#[derive(Debug, PartialEq, Eq)]
pub struct BitVec {
    inner: bitvec::vec::BitVec,
}

/// The bits a `BitVec` holds, in index order (leftmost first).
pub uninterp spec fn bits_of(v: BitVec) -> Seq<bool>;

impl View for BitVec {
    type V = Seq<bool>;

    open spec fn view(&self) -> Seq<bool> {
        bits_of(*self)
    }
}

impl BitVec {
    /// Relies on `bitvec::vec::BitVec::new`: returns the empty bit-vector.
    #[verifier::external_body]
    pub fn new() -> (r: BitVec)
        ensures
            bits_of(r) == Seq::<bool>::empty(),
    {
        BitVec { inner: bitvec::vec::BitVec::new() }
    }

    /// Relies on `bitvec::vec::BitVec::push`: appends one bit at the back.
    /// `push` panics only when the new length exceeds `bitvec`'s maximum
    /// encodable length, which the precondition rules out.
    #[verifier::external_body]
    pub fn push(&mut self, b: bool)
        requires
            bits_of(*old(self)).len() < MAX_BITS,
        ensures
            bits_of(*final(self)) == bits_of(*old(self)).push(b),
    {
        self.inner.push(b);
    }

    /// Relies on `bitvec::vec::BitVec::len`: the number of bits held.
    #[verifier::external_body]
    pub fn len(&self) -> (r: usize)
        ensures
            r == bits_of(*self).len(),
    {
        self.inner.len()
    }

    /// Relies on `bitvec::slice::BitSlice`'s `Index<usize>` impl: reads the
    /// bit at `i`.  Indexing panics when `i` is out of range, which the
    /// precondition rules out.
    #[verifier::external_body]
    pub fn get_bit(&self, i: usize) -> (r: bool)
        requires
            i < bits_of(*self).len(),
        ensures
            r == bits_of(*self)[i as int],
    {
        self.inner[i]
    }

    /// Relies on `bitvec::slice::BitSlice::set`: writes the bit at `i`.
    /// `set` panics when `i` is out of range, which the precondition rules
    /// out.
    #[verifier::external_body]
    pub fn set_bit(&mut self, i: usize, b: bool)
        requires
            i < bits_of(*old(self)).len(),
        ensures
            bits_of(*final(self)) == bits_of(*old(self)).update(i as int, b),
    {
        self.inner.set(i, b);
    }

    /// Relies on `bitvec::vec::BitVec`'s `Clone` impl: the copy holds the
    /// same bits.
    #[verifier::external_body]
    pub fn clone_bits(&self) -> (r: BitVec)
        ensures
            bits_of(r) == bits_of(*self),
    {
        BitVec { inner: self.inner.clone() }
    }

    /// Builds a bit-vector from a plain vector of bits.
    pub fn from_bools(bits: &Vec<bool>) -> (r: BitVec)
        requires
            bits@.len() <= MAX_BITS,
        ensures
            r@ == bits@,
    {
        let mut r = BitVec::new();
        let mut i: usize = 0;
        while i < bits.len()
            invariant
                i <= bits@.len(),
                bits@.len() <= MAX_BITS,
                r@ == bits@.subrange(0, i as int),
            decreases bits@.len() - i,
        {
            r.push(bits[i]);
            i = i + 1;
            proof {
                assert(r@ =~= bits@.subrange(0, i as int));
            }
        }
        proof {
            assert(bits@.subrange(0, bits@.len() as int) =~= bits@);
        }
        r
    }

    /// Reads the bit-vector out into a plain vector of bits.
    pub fn to_bools(&self) -> (r: Vec<bool>)
        ensures
            r@ == self@,
    {
        let len = self.len();
        let mut r: Vec<bool> = Vec::new();
        let mut i: usize = 0;
        while i < len
            invariant
                i <= len,
                len == self@.len(),
                r@ == self@.subrange(0, i as int),
            decreases len - i,
        {
            r.push(self.get_bit(i));
            i = i + 1;
            proof {
                assert(r@ =~= self@.subrange(0, i as int));
            }
        }
        proof {
            assert(self@.subrange(0, len as int) =~= self@);
        }
        r
    }

    /// The all-zero bit-vector of a given length.
    pub fn zeros(n: usize) -> (r: BitVec)
        requires
            n <= MAX_BITS,
        ensures
            r@ == Seq::new(n as nat, |i: int| false),
    {
        let mut r = BitVec::new();
        let mut i: usize = 0;
        while i < n
            invariant
                i <= n,
                n <= MAX_BITS,
                r@ == Seq::new(i as nat, |j: int| false),
            decreases n - i,
        {
            r.push(false);
            i = i + 1;
            proof {
                assert(r@ =~= Seq::new(i as nat, |j: int| false));
            }
        }
        r
    }

    /// Number of set bits.
    pub fn count_ones(&self) -> (r: usize)
        ensures
            r == crate::poly::count_trues(self@),
    {
        let len = self.len();
        let mut cnt: usize = 0;
        let mut i: usize = 0;
        while i < len
            invariant
                i <= len,
                len == self@.len(),
                cnt <= i,
                cnt == crate::poly::count_trues(self@.subrange(0, i as int)),
            decreases len - i,
        {
            if self.get_bit(i) {
                cnt = cnt + 1;
            }
            i = i + 1;
            proof {
                crate::poly::lemma_count_trues_push(self@.subrange(0, i - 1), self@[i - 1]);
                assert(self@.subrange(0, i - 1).push(self@[i - 1]) =~= self@.subrange(0, i as int));
            }
        }
        proof {
            assert(self@.subrange(0, len as int) =~= self@);
        }
        cnt
    }

    /// Flips the bit at `i`.
    pub fn invert_bit(&mut self, i: usize)
        requires
            i < old(self)@.len(),
        ensures
            final(self)@ == old(self)@.update(i as int, !old(self)@[i as int]),
    {
        let b = self.get_bit(i);
        self.set_bit(i, !b);
    }

    /// Structural equality, bit by bit.
    pub fn eq_bits(&self, other: &BitVec) -> (r: bool)
        ensures
            r <==> self@ =~= other@,
    {
        let la = self.len();
        let lb = other.len();
        if la != lb {
            return false;
        }
        let mut i: usize = 0;
        while i < la
            invariant
                i <= la,
                la == self@.len(),
                la == other@.len(),
                forall|j: int| 0 <= j < i ==> self@[j] == other@[j],
            decreases la - i,
        {
            if self.get_bit(i) != other.get_bit(i) {
                return false;
            }
            i = i + 1;
        }
        true
    }
}

} // verus!
