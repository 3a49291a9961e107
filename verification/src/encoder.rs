//! The systematic encoder: a codeword is the message followed by the
//! remainder of the zero-padded message under the generator polynomial.

use vstd::prelude::*;
use crate::bits::BitVec;
use crate::bits::MAX_BITS;
use crate::bitvec_operations::remainder_divide;
use crate::common;
use crate::poly::coeff;
use crate::poly::fit;
use crate::poly::is_zero_poly;
use crate::poly::lemma_fit_coeff;
use crate::poly::lemma_pdeg;
use crate::poly::lemma_pxor_coeff;
use crate::poly::lemma_remainder_of_multiple;
use crate::poly::lemma_spec_remainder_decomp;
use crate::poly::lemma_strip_coeff;
use crate::poly::pequiv;
use crate::poly::pmul;
use crate::poly::pxor;
use crate::poly::spec_remainder;
use crate::poly::strip;
use crate::BchError;

verus! {

/// The codeword for `msg` under generator `g` with `rlen` parity bits:
/// the message followed by the right-aligned remainder of the padded
/// message.
pub open spec fn spec_encode(msg: Seq<bool>, g: Seq<bool>, rlen: int) -> Seq<bool> {
    let padded = msg + Seq::new(rlen as nat, |i: int| false);
    msg + fit(spec_remainder(padded, g)->Ok_0, rlen)
}

/// Consistency of a codec instance: the generator is present with a set
/// leading coefficient, its degree is `n - k`, and the sizes respect the
/// machine bound.
pub open spec fn spec_codec_wf(n: int, k: int, g: Seq<bool>) -> bool {
    &&& g.len() > 0
    &&& g[0]
    &&& n == k + g.len() - 1
    &&& 0 <= k
    &&& n < MAX_BITS
}

/// Every codeword that `spec_encode` yields is divisible by the
/// generator polynomial, and its length is the message length plus the
/// parity width.
pub proof fn lemma_encode_divisible(msg: Seq<bool>, g: Seq<bool>, rlen: int)
    requires
        g.len() > 0,
        g[0],
        rlen == g.len() - 1,
    ensures
        spec_encode(msg, g, rlen).len() == msg.len() + rlen,
        spec_remainder(spec_encode(msg, g, rlen), g) is Ok,
        is_zero_poly(spec_remainder(spec_encode(msg, g, rlen), g)->Ok_0),
{
    let padded = msg + Seq::new(rlen as nat, |i: int| false);
    lemma_strip_coeff(g);
    lemma_pdeg(g);
    assert(strip(g) == g);
    lemma_spec_remainder_decomp(padded, g);
    let rem = spec_remainder(padded, g)->Ok_0;
    let cw = spec_encode(msg, g, rlen);
    lemma_fit_coeff(rem, rlen);
    lemma_pdeg(rem);
    // The right-aligned window keeps every real coefficient of the
    // remainder, whose degree lies below the parity width.
    assert forall|d: int| #[trigger] coeff(fit(rem, rlen), d) == coeff(rem, d) by {
        if d >= rlen {
            assert(!coeff(rem, d));
        }
    }
    let qf = choose|q: Seq<bool>| pequiv(padded, pxor(pmul(g, q), spec_remainder(padded, g)->Ok_0));
    assert(pequiv(padded, pxor(pmul(g, qf), rem)));
    assert forall|d: int| #[trigger] coeff(cw, d) == coeff(pmul(g, qf), d) by {
        lemma_pxor_coeff(pmul(g, qf), rem);
        assert(coeff(padded, d) == coeff(pxor(pmul(g, qf), rem), d));
        assert(coeff(pxor(pmul(g, qf), rem), d) == (coeff(pmul(g, qf), d) != coeff(rem, d)));
        if 0 <= d < rlen {
            assert(cw[cw.len() - 1 - d] == fit(rem, rlen)[rlen - 1 - d]);
            assert(coeff(cw, d) == coeff(fit(rem, rlen), d));
            assert(coeff(padded, d) == false) by {
                assert(padded[padded.len() - 1 - d] == false);
            }
        } else if d >= rlen {
            assert(coeff(cw, d) == coeff(padded, d)) by {
                if d < cw.len() {
                    assert(cw[cw.len() - 1 - d] == padded[padded.len() - 1 - d]);
                }
            }
            assert(!coeff(rem, d));
        }
    }
    assert(pequiv(cw, pmul(g, qf)));
    lemma_remainder_of_multiple(cw, g, qf);
}

/// Shared encoding routine: pads the message with `n - k` zeros on the
/// right, divides by the generator, and appends the remainder.  Every
/// returned codeword is divisible by the generator.
pub(crate) fn encode_core(n: i32, k: i32, gen_poly: &BitVec, data: &BitVec) -> (res: Result<
    BitVec,
    BchError,
>)
    requires
        spec_codec_wf(n as int, k as int, gen_poly@),
    ensures
        res is Ok <==> data@.len() <= k,
        res is Ok ==> (res->Ok_0)@ == spec_encode(data@, gen_poly@, n - k),
        res is Ok ==> (res->Ok_0)@.len() == data@.len() + n - k,
        res is Ok ==> spec_remainder((res->Ok_0)@, gen_poly@) is Ok && is_zero_poly(
            spec_remainder((res->Ok_0)@, gen_poly@)->Ok_0,
        ),
        res is Err ==> res->Err_0 == BchError::MessageTooLong,
{
    let ghost g = gen_poly@;
    let data_len = data.len();
    if data_len > (k as usize) {
        return Err(BchError::MessageTooLong);
    }
    let rlen = (n - k) as usize;
    let mut padded = data.clone_bits();
    let mut z: usize = 0;
    while z < rlen
        invariant
            z <= rlen,
            data_len == data@.len(),
            data_len + rlen <= MAX_BITS,
            padded@ == data@ + Seq::new(z as nat, |i: int| false),
        decreases rlen - z,
    {
        padded.push(false);
        z = z + 1;
        proof {
            assert(padded@ =~= data@ + Seq::new(z as nat, |i: int| false));
        }
    }
    let ghost padded_seq = data@ + Seq::new((n - k) as nat, |i: int| false);
    proof {
        lemma_strip_coeff(g);
        lemma_pdeg(g);
        assert(strip(g) == g);
        lemma_spec_remainder_decomp(padded_seq, g);
    }
    let division_remainder = match remainder_divide(&padded, gen_poly) {
        Ok(r) => r,
        Err(_) => {
            proof {
                assert(false);
            }
            return Err(BchError::MessageTooLong);
        },
    };
    let ghost rem = division_remainder@;
    let rem_len = division_remainder.len();
    proof {
        // The remainder fits in the parity window.
        assert(rem == spec_remainder(padded_seq, g)->Ok_0);
        if g.len() > strip(padded_seq).len() {
            lemma_strip_coeff(padded_seq);
        }
        assert(rem.len() <= n - k);
    }
    let mut codeword = data.clone_bits();
    let mut z2: usize = 0;
    let pad2 = rlen - rem_len;
    while z2 < pad2
        invariant
            z2 <= pad2,
            data_len == data@.len(),
            data_len + rlen <= MAX_BITS,
            pad2 <= rlen,
            codeword@ == data@ + Seq::new(z2 as nat, |i: int| false),
        decreases pad2 - z2,
    {
        codeword.push(false);
        z2 = z2 + 1;
        proof {
            assert(codeword@ =~= data@ + Seq::new(z2 as nat, |i: int| false));
        }
    }
    let mut b: usize = 0;
    while b < rem_len
        invariant
            b <= rem_len,
            rem_len == rem.len(),
            data_len == data@.len(),
            data_len + rlen <= MAX_BITS,
            pad2 == rlen - rem_len,
            rem_len <= rlen,
            division_remainder@ == rem,
            codeword@ == data@ + Seq::new(pad2 as nat, |i: int| false) + rem.subrange(0, b as int),
        decreases rem_len - b,
    {
        codeword.push(division_remainder.get_bit(b));
        b = b + 1;
        proof {
            assert(codeword@ =~= data@ + Seq::new(pad2 as nat, |i: int| false) + rem.subrange(
                0,
                b as int,
            ));
        }
    }
    proof {
        assert(rem.subrange(0, rem.len() as int) =~= rem);
        // The tail of the codeword is the remainder right-aligned in the
        // parity window.
        assert(codeword@ =~= spec_encode(data@, g, n - k)) by {
            lemma_fit_coeff(rem, n - k);
            let tail = fit(rem, n - k);
            assert forall|i: int| 0 <= i < n - k implies tail[i] == (data@ + Seq::new(
                (pad2) as nat,
                |j: int| false,
            ) + rem)[data@.len() + i] by {
                assert(coeff(tail, n - k - 1 - i) == tail[i]);
                assert(coeff(rem, n - k - 1 - i) == if i < pad2 {
                    false
                } else {
                    rem[i - pad2]
                });
            }
        }
        // The codeword is the padded message plus the remainder, hence a
        // multiple of the generator.
        lemma_encode_divisible(data@, g, n - k);
    }
    Ok(codeword)
}

/// A systematic BCH encoder for fixed parameters.
pub struct Encoder {
    n: i32,
    k: i32,
    gen_poly: BitVec,
}

impl Encoder {
    /// The code length.
    pub closed spec fn view_n(&self) -> int {
        self.n as int
    }

    /// The message length.
    pub closed spec fn view_k(&self) -> int {
        self.k as int
    }

    /// The generator polynomial's bits.
    pub closed spec fn view_gen(&self) -> Seq<bool> {
        self.gen_poly@
    }

    /// Consistency of this instance.
    pub open spec fn wf(&self) -> bool {
        spec_codec_wf(self.view_n(), self.view_k(), self.view_gen())
    }

    /// Builds the generator polynomial for the parameters and validates
    /// them; fails with `InvalidParameters` exactly when the generator's
    /// degree does not come out as `n - k`.
    pub fn new(n: i32, k: i32, t: i32, prime_poly: &BitVec) -> (r: Result<Encoder, BchError>)
        requires
            2 <= prime_poly@.len() <= 17,
            0 <= t < 0x800,
            0 <= k,
            n < MAX_BITS,
        ensures
            r is Ok ==> r->Ok_0.wf() && r->Ok_0.view_n() == n && r->Ok_0.view_k() == k
                && common::spec_is_gen_poly(r->Ok_0.view_gen(), prime_poly@, t as int),
            r is Err ==> r->Err_0 == BchError::InvalidParameters && (exists|g: Seq<bool>|
                #[trigger] common::spec_is_gen_poly(g, prime_poly@, t as int)
                    && !common::spec_params_valid(n as int, k as int, g, prime_poly@)),
            r is Err && 2 * (t as int) < common::two_pow((prime_poly@.len() - 1) as nat) - 1
                ==> (forall|g: Seq<bool>|
                #[trigger] common::spec_is_gen_poly(g, prime_poly@, t as int)
                    ==> !common::spec_params_valid(n as int, k as int, g, prime_poly@)),
    {
        let prime_poly_degree = (prime_poly.len() - 1) as i32;
        let gen_poly = common::get_gen_poly(prime_poly_degree, t, prime_poly);
        match common::validate_params(n, k, &gen_poly, prime_poly) {
            Ok(()) => Ok(Encoder { n, k, gen_poly }),
            Err(e) => {
                proof {
                    // The conforming generator is unique, so rejection
                    // speaks for every conforming generator.
                    if 2 * (t as int) < common::two_pow((prime_poly@.len() - 1) as nat) - 1 {
                        assert forall|g2: Seq<bool>|
                            #[trigger] common::spec_is_gen_poly(g2, prime_poly@, t as int)
                                implies !common::spec_params_valid(
                            n as int,
                            k as int,
                            g2,
                            prime_poly@,
                        ) by {
                            common::lemma_gen_poly_unique(g2, gen_poly@, prime_poly@, t as int);
                        }
                    }
                }
                Err(e)
            },
        }
    }

    /// Wraps an externally supplied generator polynomial without
    /// rebuilding it; the parameters must already be consistent.
    pub fn new_with_gen_poly(n: i32, k: i32, t: i32, gen_poly: BitVec) -> (r: Encoder)
        requires
            spec_codec_wf(n as int, k as int, gen_poly@),
        ensures
            r.wf(),
            r.view_n() == n,
            r.view_k() == k,
            r.view_gen() == gen_poly@,
    {
        let _ = t;
        Encoder { n, k, gen_poly }
    }

    /// Encodes a message of at most `k` bits into a codeword of
    /// `|message| + (n - k)` bits; see `spec_encode`.  Every returned
    /// codeword is divisible by the generator polynomial.
    pub fn encode(self, data: &BitVec) -> (res: Result<BitVec, BchError>)
        requires
            self.wf(),
        ensures
            res is Ok <==> data@.len() <= self.view_k(),
            res is Ok ==> (res->Ok_0)@ == spec_encode(
                data@,
                self.view_gen(),
                self.view_n() - self.view_k(),
            ),
            res is Ok ==> (res->Ok_0)@.len() == data@.len() + self.view_n() - self.view_k(),
            res is Ok ==> spec_remainder((res->Ok_0)@, self.view_gen()) is Ok && is_zero_poly(
                spec_remainder((res->Ok_0)@, self.view_gen())->Ok_0,
            ),
            res is Err ==> res->Err_0 == BchError::MessageTooLong,
    {
        encode_core(self.n, self.k, &self.gen_poly, data)
    }
}

} // verus!
