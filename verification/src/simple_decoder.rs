//! The brute-force cyclic trial decoder: rotate the received word until
//! its syndrome has weight at most `t`, then apply the syndrome as the
//! correction.

use vstd::prelude::*;
use crate::bch_bitvec::BCHBitVec;
use crate::bits::BitVec;
use crate::bits::MAX_BITS;
use crate::bitvec_operations::copy_range;
use crate::bitvec_operations::remainder_divide;
use crate::bitvec_operations::shift_cyclic;
use crate::bitvec_operations::xor_shifted;
use crate::common;
use crate::decoder::Decoder;
use crate::encoder::spec_codec_wf;
use crate::encoder::spec_encode;
use crate::poly::coeff;
use crate::poly::count_trues;
use crate::poly::fit;
use crate::poly::is_zero_poly;
use crate::poly::lemma_count_trues_zero;
use crate::poly::lemma_fit_coeff;
use crate::poly::lemma_pdeg;
use crate::poly::lemma_strip_coeff;
use crate::poly::pdeg;
use crate::poly::spec_cyclic;
use crate::poly::spec_remainder;
use crate::poly::strip;
use crate::poly::sxor;
use crate::BchError;

verus! {

/// The syndrome of a word: its remainder under the generator, right-
/// aligned in the parity window of `rlen` bits.
pub open spec fn spec_syndrome(word: Seq<bool>, g: Seq<bool>, rlen: int) -> Seq<bool> {
    fit(spec_remainder(word, g)->Ok_0, rlen)
}

/// The cyclic trial from rotation `i` on: if the current rotation's
/// syndrome has weight at most `t`, correct with it, undo the rotations,
/// and return the first `k` bits with the rotated-back syndrome as the
/// error pattern; otherwise rotate once more.  After `n` rotations the
/// word is undecodable.
pub open spec fn spec_simple_decode_loop(
    word: Seq<bool>,
    g: Seq<bool>,
    n: int,
    k: int,
    t: int,
    i: int,
) -> Result<(Seq<bool>, Seq<bool>), BchError>
    decreases n - i,
{
    if i < 0 || i >= n {
        Err(BchError::DecodeFailure)
    } else {
        let s = spec_syndrome(word, g, n - k);
        if count_trues(s) <= t {
            let corrected = spec_cyclic(sxor(word, fit(s, word.len() as int)), -i);
            let decoded = corrected.subrange(
                0,
                if k <= corrected.len() {
                    k
                } else {
                    corrected.len() as int
                },
            );
            Ok((decoded, spec_cyclic(s, -i)))
        } else {
            spec_simple_decode_loop(spec_cyclic(word, 1), g, n, k, t, i + 1)
        }
    }
}

/// The whole decoder: words longer than `n` are rejected outright.
pub open spec fn spec_simple_decode(
    word: Seq<bool>,
    g: Seq<bool>,
    n: int,
    k: int,
    t: int,
) -> Result<(Seq<bool>, Seq<bool>), BchError> {
    if word.len() > n {
        Err(BchError::InputTooLong)
    } else {
        spec_simple_decode_loop(word, g, n, k, t, 0)
    }
}

/// Decoding an unharmed codeword of a full-length message returns the
/// message and the all-zero error pattern, for any `t >= 0`.
pub proof fn lemma_decode_after_encode(msg: Seq<bool>, g: Seq<bool>, n: int, k: int, t: int)
    requires
        spec_codec_wf(n, k, g),
        n > k,
        msg.len() == k,
        t >= 0,
    ensures
        spec_simple_decode(spec_encode(msg, g, n - k), g, n, k, t) == Result::<
            (Seq<bool>, Seq<bool>),
            BchError,
        >::Ok((msg, Seq::new((n - k) as nat, |i: int| false))),
{
    crate::encoder::lemma_encode_divisible(msg, g, n - k);
    let cw = spec_encode(msg, g, n - k);
    assert(cw.len() == n);
    let rem = spec_remainder(cw, g)->Ok_0;
    let s = spec_syndrome(cw, g, n - k);
    let zeros = Seq::new((n - k) as nat, |i: int| false);
    assert(s =~= zeros) by {
        lemma_fit_coeff(rem, n - k);
        assert forall|i: int| 0 <= i < n - k implies s[i] == false by {
            assert(s[i] == coeff(fit(rem, n - k), n - k - 1 - i));
            assert(!coeff(rem, n - k - 1 - i));
        }
    }
    lemma_count_trues_zero(s);
    assert(count_trues(s) == 0);
    let corrected0 = sxor(cw, fit(s, cw.len() as int));
    assert(corrected0 =~= cw) by {
        lemma_fit_coeff(s, cw.len() as int);
        assert forall|i: int| 0 <= i < cw.len() implies corrected0[i] == cw[i] by {
            assert(coeff(fit(s, cw.len() as int), cw.len() - 1 - i) == coeff(s, cw.len() - 1 - i));
            assert(fit(s, cw.len() as int)[i] == coeff(s, cw.len() - 1 - i));
            assert(!coeff(s, cw.len() - 1 - i)) by {
                if 0 <= cw.len() - 1 - i < s.len() {
                    assert(s[s.len() - 1 - (cw.len() - 1 - i)] == false);
                }
            }
        }
    }
    assert(spec_cyclic(corrected0, 0) =~= cw) by {
        assert forall|j: int| 0 <= j < cw.len() implies spec_cyclic(corrected0, 0)[j]
            == cw[j] by {
            assert((j + 0) % (cw.len() as int) == j) by {
                vstd::arithmetic::div_mod::lemma_small_mod(j as nat, cw.len());
            }
        }
    }
    assert(spec_cyclic(s, 0) =~= zeros) by {
        assert forall|j: int| 0 <= j < s.len() implies spec_cyclic(s, 0)[j] == s[j] by {
            assert((j + 0) % (s.len() as int) == j) by {
                vstd::arithmetic::div_mod::lemma_small_mod(j as nat, s.len());
            }
        }
    }
    assert(cw.subrange(0, k) =~= msg);
    assert(spec_simple_decode_loop(cw, g, n, k, t, 0) == Result::<
        (Seq<bool>, Seq<bool>),
        BchError,
    >::Ok((msg, zeros)));
}

/// A codeword harmed by any error pattern of weight at most `t` that is
/// confined to the parity window decodes at the first trial: the decoder
/// returns the original message and exactly that error pattern.
pub proof fn lemma_decode_corrects_parity_errors(
    msg: Seq<bool>,
    g: Seq<bool>,
    n: int,
    k: int,
    t: int,
    e: Seq<bool>,
)
    requires
        spec_codec_wf(n, k, g),
        n > k,
        msg.len() == k,
        t >= 0,
        e.len() == n - k,
        count_trues(e) <= t,
    ensures
        ({
            let received = sxor(spec_encode(msg, g, n - k), fit(e, n));
            spec_simple_decode(received, g, n, k, t) == Result::<
                (Seq<bool>, Seq<bool>),
                BchError,
            >::Ok((msg, e))
        }),
{
    crate::encoder::lemma_encode_divisible(msg, g, n - k);
    let cw = spec_encode(msg, g, n - k);
    assert(cw.len() == n);
    let ext = fit(e, n);
    let received = sxor(cw, ext);
    assert(received.len() == n);
    lemma_fit_coeff(e, n);
    lemma_pdeg(e);
    lemma_pdeg(g);
    lemma_strip_coeff(g);
    assert(strip(g) == g);
    assert(pdeg(g) == n - k) by {
        assert(strip(g).len() == g.len());
    }
    // The received word decomposes as a multiple of g plus e.
    crate::poly::lemma_spec_remainder_decomp(cw, g);
    let rc = spec_remainder(cw, g)->Ok_0;
    let qc = choose|q: Seq<bool>| crate::poly::pequiv(cw, crate::poly::pxor(crate::poly::pmul(g, q), rc));
    assert(crate::poly::pequiv(cw, crate::poly::pxor(crate::poly::pmul(g, qc), rc)));
    crate::poly::lemma_spec_remainder_decomp(received, g);
    let rr = spec_remainder(received, g)->Ok_0;
    let qr = choose|q: Seq<bool>| crate::poly::pequiv(received, crate::poly::pxor(crate::poly::pmul(g, q), rr));
    assert(crate::poly::pequiv(received, crate::poly::pxor(crate::poly::pmul(g, qr), rr)));
    // Coefficientwise, received = g * qc + e.
    assert forall|d: int| #[trigger] coeff(received, d) == coeff(
        crate::poly::pxor(crate::poly::pmul(g, qc), e),
        d,
    ) by {
        crate::poly::lemma_pxor_coeff(cw, ext);
        crate::poly::lemma_pxor_coeff(crate::poly::pmul(g, qc), rc);
        crate::poly::lemma_pxor_coeff(crate::poly::pmul(g, qc), e);
        assert(coeff(received, d) == (coeff(cw, d) != coeff(ext, d)));
        assert(coeff(ext, d) == coeff(e, d)) by {
            if d >= n {
                assert(!coeff(e, d));
            }
        }
        assert(coeff(cw, d) == coeff(crate::poly::pxor(crate::poly::pmul(g, qc), rc), d));
        assert(coeff(crate::poly::pxor(crate::poly::pmul(g, qc), rc), d) == (coeff(
            crate::poly::pmul(g, qc),
            d,
        ) != coeff(rc, d)));
        assert(!coeff(rc, d)) by {
            assert(crate::poly::is_zero_poly(rc));
        }
    }
    assert(crate::poly::pequiv(received, crate::poly::pxor(crate::poly::pmul(g, qc), e)));
    // Uniqueness of remainders: the canonical remainder of the received
    // word denotes exactly e.
    assert forall|d: int| #[trigger] coeff(crate::poly::pxor(crate::poly::pmul(g, qc), e), d)
        == coeff(crate::poly::pxor(crate::poly::pmul(g, qr), rr), d) by {
        assert(coeff(received, d) == coeff(crate::poly::pxor(crate::poly::pmul(g, qc), e), d));
        assert(coeff(received, d) == coeff(crate::poly::pxor(crate::poly::pmul(g, qr), rr), d));
    }
    assert(crate::poly::pequiv(
        crate::poly::pxor(crate::poly::pmul(g, qc), e),
        crate::poly::pxor(crate::poly::pmul(g, qr), rr),
    ));
    crate::poly::lemma_remainder_unique(g, qc, e, qr, rr);
    // The normalized syndrome is the error pattern itself.
    let s = spec_syndrome(received, g, n - k);
    assert(s =~= e) by {
        lemma_fit_coeff(rr, n - k);
        assert forall|b: int| 0 <= b < n - k implies s[b] == e[b] by {
            assert(s[b] == coeff(fit(rr, n - k), n - k - 1 - b));
            assert(coeff(rr, n - k - 1 - b) == coeff(e, n - k - 1 - b));
            assert(coeff(e, n - k - 1 - b) == e[b]);
        }
    }
    // The first trial corrects: xoring the extended syndrome undoes the
    // harm.
    let corrected0 = sxor(received, fit(s, received.len() as int));
    assert(corrected0 =~= cw) by {
        assert forall|idx: int| 0 <= idx < n implies corrected0[idx] == cw[idx] by {
            assert(fit(s, n)[idx] == coeff(s, n - 1 - idx));
            assert(ext[idx] == coeff(e, n - 1 - idx));
            assert(received[idx] == (cw[idx] != ext[idx]));
        }
    }
    assert(spec_cyclic(corrected0, 0) =~= cw) by {
        assert forall|jj: int| 0 <= jj < cw.len() implies spec_cyclic(corrected0, 0)[jj]
            == cw[jj] by {
            assert((jj + 0) % (cw.len() as int) == jj) by {
                vstd::arithmetic::div_mod::lemma_small_mod(jj as nat, cw.len());
            }
        }
    }
    assert(spec_cyclic(s, 0) =~= e) by {
        assert forall|jj: int| 0 <= jj < s.len() implies spec_cyclic(s, 0)[jj] == s[jj] by {
            assert((jj + 0) % (s.len() as int) == jj) by {
                vstd::arithmetic::div_mod::lemma_small_mod(jj as nat, s.len());
            }
        }
    }
    assert(cw.subrange(0, k) =~= msg);
    assert(spec_simple_decode_loop(received, g, n, k, t, 0) == Result::<
        (Seq<bool>, Seq<bool>),
        BchError,
    >::Ok((msg, e)));
}

/// The cyclic trial decoder for fixed parameters.
pub struct SimpleDecoder {
    n: i32,
    k: i32,
    t: i32,
    gen_poly: BitVec,
}

impl SimpleDecoder {
    /// The code length.
    pub closed spec fn view_n(&self) -> int {
        self.n as int
    }

    /// The message length.
    pub closed spec fn view_k(&self) -> int {
        self.k as int
    }

    /// The number of errors the decoder accepts in a syndrome.
    pub closed spec fn view_t(&self) -> int {
        self.t as int
    }

    /// The generator polynomial's bits.
    pub closed spec fn view_gen(&self) -> Seq<bool> {
        self.gen_poly@
    }

    /// Consistency of this instance.
    pub open spec fn wf(&self) -> bool {
        spec_codec_wf(self.view_n(), self.view_k(), self.view_gen()) && self.view_t() >= 0
    }

    /// Builds the generator polynomial for the parameters and validates
    /// them, as `Encoder::new` does.
    pub fn new(n: i32, k: i32, t: i32, prime_poly: &BitVec) -> (r: Result<
        SimpleDecoder,
        BchError,
    >)
        requires
            2 <= prime_poly@.len() <= 17,
            0 <= t < 0x800,
            0 <= k <= n,
            n < MAX_BITS,
        ensures
            r is Ok ==> r->Ok_0.wf() && r->Ok_0.view_n() == n && r->Ok_0.view_k() == k
                && r->Ok_0.view_t() == t && common::spec_is_gen_poly(
                r->Ok_0.view_gen(),
                prime_poly@,
                t as int,
            ),
            r is Err ==> r->Err_0 == BchError::InvalidParameters && (exists|gp: Seq<bool>|
                #[trigger] common::spec_is_gen_poly(gp, prime_poly@, t as int)
                    && !common::spec_params_valid(n as int, k as int, gp, prime_poly@)),
            r is Err && 2 * (t as int) < common::two_pow((prime_poly@.len() - 1) as nat) - 1
                ==> (forall|gp: Seq<bool>|
                #[trigger] common::spec_is_gen_poly(gp, prime_poly@, t as int)
                    ==> !common::spec_params_valid(n as int, k as int, gp, prime_poly@)),
    {
        let degree = n - k;
        let gen_poly = common::get_gen_poly(degree, t, prime_poly);
        match common::validate_params(n, k, &gen_poly, prime_poly) {
            Ok(()) => Ok(SimpleDecoder { n, k, t, gen_poly }),
            Err(e) => {
                proof {
                    // The conforming generator is unique, so rejection
                    // speaks for every conforming generator.
                    if 2 * (t as int) < common::two_pow((prime_poly@.len() - 1) as nat) - 1 {
                        assert forall|g2: Seq<bool>|
                            #[trigger] common::spec_is_gen_poly(g2, prime_poly@, t as int)
                                implies !common::spec_params_valid(
                            n as int,
                            k as int,
                            g2,
                            prime_poly@,
                        ) by {
                            common::lemma_gen_poly_unique(g2, gen_poly@, prime_poly@, t as int);
                        }
                    }
                }
                Err(e)
            },
        }
    }

    /// Decodes a received word of at most `n` bits; see
    /// `spec_simple_decode`.
    pub fn decode(self, encoded: &BitVec) -> (res: Result<(BitVec, BitVec), BchError>)
        requires
            self.wf(),
        ensures
            res is Ok <==> spec_simple_decode(
                encoded@,
                self.view_gen(),
                self.view_n(),
                self.view_k(),
                self.view_t(),
            ) is Ok,
            res is Ok ==> ((res->Ok_0).0@, (res->Ok_0).1@) == spec_simple_decode(
                encoded@,
                self.view_gen(),
                self.view_n(),
                self.view_k(),
                self.view_t(),
            )->Ok_0,
            res is Err ==> res->Err_0 == spec_simple_decode(
                encoded@,
                self.view_gen(),
                self.view_n(),
                self.view_k(),
                self.view_t(),
            )->Err_0,
    {
        let ghost g = self.gen_poly@;
        let ghost ni = self.n as int;
        let ghost ki = self.k as int;
        let ghost ti = self.t as int;
        let encoded_len = encoded.len();
        if encoded_len > (self.n as usize) {
            return Err(BchError::InputTooLong);
        }
        let mut word = encoded.clone_bits();
        let rlen = (self.n - self.k) as usize;
        proof {
            lemma_strip_coeff(g);
            lemma_pdeg(g);
            assert(strip(g) == g);
        }
        let mut i: usize = 0;
        while i < (self.n as usize)
            invariant
                self.wf(),
                g == self.gen_poly@,
                ni == self.n as int,
                ki == self.k as int,
                ti == self.t as int,
                i <= ni,
                rlen == ni - ki,
                word@.len() == encoded@.len(),
                encoded@.len() <= ni,
                strip(g) == g,
                spec_simple_decode_loop(word@, g, ni, ki, ti, i as int) == spec_simple_decode_loop(
                    encoded@,
                    g,
                    ni,
                    ki,
                    ti,
                    0,
                ),
            decreases ni - i,
        {
            let ghost word_entry = word@;
            let mut syndrome = match remainder_divide(&word, &self.gen_poly) {
                Ok(r) => r,
                Err(_) => {
                    proof {
                        assert(false);
                    }
                    return Err(BchError::DecodeFailure);
                },
            };
            let ghost rem = spec_remainder(word_entry, g)->Ok_0;
            let pad = rlen - syndrome.len();
            syndrome.precede_with_zeros(pad);
            proof {
                assert(syndrome@ =~= spec_syndrome(word_entry, g, rlen as int)) by {
                    lemma_fit_coeff(rem, rlen as int);
                    assert forall|idx: int| 0 <= idx < rlen implies syndrome@[idx] == fit(
                        rem,
                        rlen as int,
                    )[idx] by {
                        assert(fit(rem, rlen as int)[idx] == coeff(rem, rlen - 1 - idx));
                        if idx < pad {
                            assert(syndrome@[idx] == false);
                            assert(!coeff(rem, rlen - 1 - idx));
                        } else {
                            assert(syndrome@[idx] == rem[idx - pad]);
                            assert(coeff(rem, rlen - 1 - idx) == rem[rem.len() - 1 - (rlen - 1
                                - idx)]);
                        }
                    }
                }
            }
            let hamming_weight = syndrome.count_ones();
            if hamming_weight <= (self.t as usize) {
                let word_len = word.len();
                let mut corrected = word.clone_bits();
                // Apply the syndrome right-aligned; a word shorter than
                // the parity window takes only the syndrome's tail.
                if word_len >= rlen {
                    xor_shifted(&mut corrected, &syndrome, word_len - rlen);
                } else {
                    let tail = copy_range(&syndrome, rlen - word_len, rlen);
                    xor_shifted(&mut corrected, &tail, 0);
                }
                proof {
                    assert(corrected@ =~= sxor(word_entry, fit(syndrome@, word_entry.len() as int)))
                        by {
                        lemma_fit_coeff(syndrome@, word_entry.len() as int);
                        let ext = fit(syndrome@, word_entry.len() as int);
                        assert forall|idx: int| 0 <= idx < word_entry.len() implies corrected@[idx]
                            == (word_entry[idx] != ext[idx]) by {
                            assert(ext[idx] == coeff(syndrome@, word_entry.len() - 1 - idx));
                            if word_entry.len() >= rlen {
                                if idx >= word_entry.len() - rlen {
                                    assert(coeff(syndrome@, word_entry.len() - 1 - idx)
                                        == syndrome@[idx - (word_entry.len() - rlen)]);
                                } else {
                                    assert(!coeff(syndrome@, word_entry.len() - 1 - idx));
                                }
                            } else {
                                assert(coeff(syndrome@, word_entry.len() - 1 - idx) == syndrome@[
                                    rlen - word_entry.len() + idx]);
                            }
                        }
                    }
                }
                shift_cyclic(&mut corrected, -(i as i32));
                let corrected_len = corrected.len();
                let kk = if (self.k as usize) <= corrected_len {
                    self.k as usize
                } else {
                    corrected_len
                };
                let decoded = copy_range(&corrected, 0, kk);
                shift_cyclic(&mut syndrome, -(i as i32));
                proof {
                    assert(spec_simple_decode_loop(word_entry, g, ni, ki, ti, i as int) == Result::<
                        (Seq<bool>, Seq<bool>),
                        BchError,
                    >::Ok((decoded@, syndrome@)));
                }
                return Ok((decoded, syndrome));
            }
            shift_cyclic(&mut word, 1);
            i = i + 1;
            proof {
                assert(spec_simple_decode_loop(word_entry, g, ni, ki, ti, i - 1)
                    == spec_simple_decode_loop(word@, g, ni, ki, ti, i as int));
            }
        }
        Err(BchError::DecodeFailure)
    }
}

impl Decoder for SimpleDecoder {
    /// Checks that the instance is consistent and the word long enough,
    /// then runs the inherent `decode`; an inconsistent instance is
    /// reported as undecodable.
    fn decode(self, encoded: &BitVec) -> Result<(BitVec, BitVec), BchError> {
        if self.k < 0 || self.n < self.k || self.t < 0 {
            return Err(BchError::DecodeFailure);
        }
        if (self.n as usize) >= MAX_BITS {
            return Err(BchError::DecodeFailure);
        }
        let glen = self.gen_poly.len();
        if glen == 0 || !self.gen_poly.get_bit(0) {
            return Err(BchError::DecodeFailure);
        }
        let diff: i64 = (self.n as i64) - (self.k as i64) + 1;
        if (diff as u64) != (glen as u64) {
            return Err(BchError::DecodeFailure);
        }
        SimpleDecoder::decode(self, encoded)
    }
}

} // verus!
