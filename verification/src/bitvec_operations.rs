//! Polynomial arithmetic over GF(2) on bit-vectors: product of a list of
//! polynomials, long division returning the remainder, and cyclic shift.

use vstd::prelude::*;
use crate::bits::BitVec;
use crate::bits::MAX_BITS;
use crate::bits::bits_of;
use crate::poly::coeff;
use crate::poly::conv_term;
use crate::poly::div_loop;
use crate::poly::div_step;
use crate::poly::fit;
use crate::poly::lemma_fit_coeff;
use crate::poly::lemma_mulc_extend;
use crate::poly::lemma_pdeg;
use crate::poly::lemma_pmul_coeff;
use crate::poly::lemma_strip_from_scan;
use crate::poly::lemma_total_len_prefix;
use crate::poly::lemma_total_len_push;
use crate::poly::lemma_xor_range_split;
use crate::poly::pdeg;
use crate::poly::pmul;
use crate::poly::shift_in;
use crate::poly::spec_cyclic;
use crate::poly::spec_mul_step;
use crate::poly::spec_multiply_list;
use crate::poly::spec_remainder;
use crate::poly::strip;
use crate::poly::sxor;
use crate::poly::total_len;
use crate::poly::xor_range;
use crate::BchError;
use vstd::arithmetic::div_mod::lemma_add_mod_noop_right;
use vstd::arithmetic::div_mod::lemma_fundamental_div_mod;
use vstd::arithmetic::div_mod::lemma_fundamental_div_mod_converse_mod;
use vstd::arithmetic::div_mod::lemma_mod_division_less_than_divisor;
use vstd::arithmetic::div_mod::lemma_mod_multiples_vanish;

verus! {

/// The bit sequences a list of bit-vectors holds.
pub open spec fn views_of(s: Seq<BitVec>) -> Seq<Seq<bool>> {
    s.map_values(|b: BitVec| bits_of(b))
}

/// Index of the first set bit, or the length when every bit is clear.
fn first_true(v: &BitVec) -> (r: usize)
    ensures
        r <= v@.len(),
        forall|j: int| 0 <= j < r ==> !v@[j],
        r < v@.len() ==> v@[r as int],
{
    let len = v.len();
    let mut i: usize = 0;
    while i < len
        invariant
            i <= len,
            len == v@.len(),
            forall|j: int| 0 <= j < i ==> !v@[j],
        decreases len - i,
    {
        if v.get_bit(i) {
            return i;
        }
        i = i + 1;
    }
    len
}

/// Copies the window `[from, to)` of `v` into a fresh bit-vector.
pub(crate) fn copy_range(v: &BitVec, from: usize, to: usize) -> (r: BitVec)
    requires
        from <= to <= v@.len(),
        to - from <= MAX_BITS,
    ensures
        r@ == v@.subrange(from as int, to as int),
{
    let mut r = BitVec::new();
    let mut i: usize = from;
    while i < to
        invariant
            from <= i <= to <= v@.len(),
            to - from <= MAX_BITS,
            r@ == v@.subrange(from as int, i as int),
        decreases to - i,
    {
        r.push(v.get_bit(i));
        i = i + 1;
        proof {
            assert(r@ =~= v@.subrange(from as int, i as int));
        }
    }
    r
}

/// Drops the leading zero coefficients.
pub fn truncate(vec: BitVec) -> (r: BitVec)
    requires
        vec@.len() <= MAX_BITS,
    ensures
        r@ == strip(vec@),
{
    let i = first_true(&vec);
    let len = vec.len();
    let r = copy_range(&vec, i, len);
    proof {
        lemma_strip_from_scan(vec@, i as int);
    }
    r
}

/// Exclusive-ors `b` into `r`, which must have the same length.
pub(crate) fn xor_in_place(r: &mut BitVec, b: &BitVec)
    requires
        old(r)@.len() == b@.len(),
    ensures
        final(r)@ == sxor(old(r)@, b@),
{
    let len = r.len();
    let mut i: usize = 0;
    while i < len
        invariant
            i <= len,
            len == b@.len(),
            r@.len() == len,
            forall|j: int| 0 <= j < i ==> r@[j] == (old(r)@[j] != b@[j]),
            forall|j: int| i <= j < len ==> r@[j] == old(r)@[j],
        decreases len - i,
    {
        let bit = r.get_bit(i) != b.get_bit(i);
        r.set_bit(i, bit);
        i = i + 1;
    }
    proof {
        assert(r@ =~= sxor(old(r)@, b@));
    }
}

/// Drops the leading bit of the working remainder and pulls in `bit` on
/// the right, in place.
pub(crate) fn shift_in_place(r: &mut BitVec, bit: bool)
    requires
        old(r)@.len() >= 1,
    ensures
        final(r)@ == shift_in(old(r)@, bit),
{
    let len = r.len();
    let mut i: usize = 0;
    while i < len - 1
        invariant
            i <= len - 1,
            len == r@.len(),
            len >= 1,
            forall|j: int| 0 <= j < i ==> r@[j] == old(r)@[j + 1],
            forall|j: int| i <= j < len ==> r@[j] == old(r)@[j],
        decreases len - i,
    {
        let bit_next = r.get_bit(i + 1);
        r.set_bit(i, bit_next);
        i = i + 1;
    }
    r.set_bit(len - 1, bit);
    proof {
        assert(r@ =~= shift_in(old(r)@, bit));
    }
}

/// Remainder of the long division of one polynomial by another, both read
/// leftmost bit = highest degree.  The divisor is stripped of leading
/// zeros first: an all-zero divisor is reported as `DivisionByZero`; a
/// stripped divisor longer than the stripped dividend returns the
/// stripped dividend unchanged; otherwise the remainder comes
/// right-aligned in exactly `stripped divisor length - 1` bits.
pub fn remainder_divide(dividend_orig: &BitVec, divisor_orig: &BitVec) -> (res: Result<
    BitVec,
    BchError,
>)
    requires
        dividend_orig@.len() <= MAX_BITS,
        divisor_orig@.len() <= MAX_BITS,
    ensures
        res is Ok <==> spec_remainder(dividend_orig@, divisor_orig@) is Ok,
        res is Ok ==> bits_of(res->Ok_0) == spec_remainder(dividend_orig@, divisor_orig@)->Ok_0,
        res is Ok ==> bits_of(res->Ok_0).len() < strip(divisor_orig@).len(),
        res is Err ==> res->Err_0 == BchError::DivisionByZero,
{
    let dividend = truncate(dividend_orig.clone_bits());
    let divisor = truncate(divisor_orig.clone_bits());
    proof {
        crate::poly::lemma_strip_coeff(dividend_orig@);
        crate::poly::lemma_strip_coeff(divisor_orig@);
    }
    let ta_len = dividend.len();
    let tb_len = divisor.len();
    if tb_len == 0 {
        return Err(BchError::DivisionByZero);
    }
    if tb_len > ta_len {
        return Ok(dividend);
    }
    let ghost ta = dividend@;
    let ghost tb = divisor@;
    let mut acc = copy_range(&dividend, 0, tb_len);
    xor_in_place(&mut acc, &divisor);
    proof {
        assert(acc@ == sxor(ta.subrange(0, tb.len() as int), tb));
    }
    let ghost acc0 = acc@;
    let mut i: usize = tb_len;
    while i < ta_len
        invariant
            tb_len <= i <= ta_len,
            ta_len == ta.len(),
            tb_len == tb.len(),
            tb_len >= 1,
            dividend@ == ta,
            divisor@ == tb,
            acc@.len() == tb_len,
            div_loop(acc@, ta, tb, i as int) == div_loop(acc0, ta, tb, tb.len() as int),
        decreases ta_len - i,
    {
        let ghost acc_entry = acc@;
        let bit = dividend.get_bit(i);
        shift_in_place(&mut acc, bit);
        if acc.get_bit(0) {
            xor_in_place(&mut acc, &divisor);
        }
        proof {
            assert(acc@ == div_step(acc_entry, tb, ta[i as int]));
        }
        i = i + 1;
    }
    let r = copy_range(&acc, 1, tb_len);
    proof {
        let accf = div_loop(acc0, ta, tb, tb.len() as int);
        assert(acc@ == accf);
        assert(r@ =~= accf.subrange(1, accf.len() as int));
    }
    Ok(r)
}

/// Rotates the bits of `vec` by `n` positions: positive `n` rotates
/// towards the front (left), negative towards the back.
pub fn shift_cyclic(vec: &mut BitVec, n: i32)
    requires
        old(vec)@.len() <= MAX_BITS,
    ensures
        final(vec)@ == spec_cyclic(old(vec)@, n as int),
{
    let len = vec.len();
    if len == 0 {
        proof {
            assert(vec@ =~= spec_cyclic(old(vec)@, n as int));
        }
        return;
    }
    let ghost m = len as int;
    // Reduce the shift to an equivalent amount in [0, len).
    let sh: usize = if n >= 0 {
        (n as usize) % len
    } else {
        let mm = ((-(n as i64)) as usize) % len;
        if mm == 0 {
            0
        } else {
            len - mm
        }
    };
    proof {
        if n >= 0 {
            assert(sh == (n as int) % m);
        } else {
            let x = n as int;
            let mr = (-x) % m;
            lemma_fundamental_div_mod(-x, m);
            let q = (-x) / m;
            assert(-x == m * q + mr);
            assert(x == m * (-q) + (-mr)) by (nonlinear_arith)
                requires
                    -x == m * q + mr,
            ;
            lemma_mod_multiples_vanish(-q, -mr, m);
            assert(x % m == (-mr) % m);
            if mr == 0 {
                assert((0int) % m == 0) by (nonlinear_arith)
                    requires
                        m > 0,
                ;
                assert(sh == x % m);
            } else {
                lemma_fundamental_div_mod_converse_mod(-mr, m, -1, m - mr);
                assert((-mr) % m == m - mr);
                assert(sh == x % m);
            }
        }
        lemma_mod_division_less_than_divisor(n as int, m);
    }
    let tmp = vec.clone_bits();
    let mut i: usize = 0;
    while i < len
        invariant
            i <= len,
            0 < len <= MAX_BITS,
            sh < len,
            sh == (n as int) % (len as int),
            tmp@ == old(vec)@,
            vec@.len() == len,
            tmp@.len() == len,
            forall|j: int| 0 <= j < i ==> vec@[j] == tmp@[(j + n) % (len as int)],
            forall|j: int| i <= j < len ==> vec@[j] == tmp@[j],
        decreases len - i,
    {
        let pos = (i + sh) % len;
        proof {
            lemma_mod_division_less_than_divisor((i + sh) as int, len as int);
            lemma_add_mod_noop_right(i as int, n as int, len as int);
            assert((i + sh) as int % (len as int) == (i + n) % (len as int));
        }
        let bit = tmp.get_bit(pos);
        vec.set_bit(i, bit);
        i = i + 1;
    }
    proof {
        assert(vec@ =~= spec_cyclic(old(vec)@, n as int));
    }
}

/// Exclusive-ors `f`, shifted `off` places towards the back, into `r`.
pub(crate) fn xor_shifted(r: &mut BitVec, f: &BitVec, off: usize)
    requires
        off + f@.len() <= old(r)@.len(),
        old(r)@.len() <= MAX_BITS,
    ensures
        final(r)@.len() == old(r)@.len(),
        forall|i: int|
            0 <= i < old(r)@.len() ==> final(r)@[i] == if off <= i < off + f@.len() {
                old(r)@[i] != f@[i - off]
            } else {
                old(r)@[i]
            },
{
    let fl = f.len();
    let mut t: usize = 0;
    while t < fl
        invariant
            t <= fl,
            fl == f@.len(),
            off + fl <= r@.len(),
            r@.len() <= MAX_BITS,
            r@.len() == old(r)@.len(),
            forall|i: int|
                0 <= i < r@.len() ==> r@[i] == if off <= i < off + t {
                    old(r)@[i] != f@[i - off]
                } else {
                    old(r)@[i]
                },
        decreases fl - t,
    {
        let bit = r.get_bit(off + t) != f.get_bit(t);
        r.set_bit(off + t, bit);
        t = t + 1;
    }
}

/// The accumulated product times one more polynomial; see
/// `spec_mul_step` for the exact window.
fn mul_step(f: &BitVec, p: &BitVec) -> (r: BitVec)
    requires
        f@.len() + p@.len() <= MAX_BITS,
    ensures
        r@ == spec_mul_step(f@, p@),
{
    let pl = p.len();
    let fp = first_true(p);
    proof {
        lemma_strip_from_scan(p@, fp as int);
    }
    if fp == pl {
        let mut r = BitVec::new();
        r.push(false);
        proof {
            assert(r@ =~= seq![false]);
        }
        return r;
    }
    let dp = pl - 1 - fp;
    proof {
        assert(pdeg(p@) == dp);
    }
    let fl = f.len();
    let ll = fl + dp;
    let mut r = BitVec::zeros(ll);
    proof {
        assert forall|d: int| #[trigger] coeff(r@, d) == xor_range(
            conv_term(f@, p@, d),
            pl - fp,
            dp + 1,
        ) by {
            assert(xor_range(conv_term(f@, p@, d), dp + 1, dp + 1) == false);
            if 0 <= d < ll {
                assert(r@[ll - 1 - d] == false);
            }
        }
    }
    let mut j = fp;
    while j < pl
        invariant
            fp <= j <= pl,
            pl == p@.len(),
            fl == f@.len(),
            dp == pl - 1 - fp,
            ll == fl + dp,
            ll <= MAX_BITS,
            r@.len() == ll,
            forall|d: int|
                #[trigger] coeff(r@, d) == xor_range(conv_term(f@, p@, d), pl - j, dp + 1),
        decreases pl - j,
    {
        let ghost r_entry = r@;
        let k = pl - 1 - j;
        if p.get_bit(j) {
            xor_shifted(&mut r, f, dp - k);
        }
        proof {
            assert forall|d: int| #[trigger] coeff(r@, d) == xor_range(
                conv_term(f@, p@, d),
                pl - (j + 1),
                dp + 1,
            ) by {
                let g = conv_term(f@, p@, d);
                assert(coeff(r_entry, d) == xor_range(g, pl - j, dp + 1));
                lemma_xor_range_split(g, k as int, k + 1, dp + 1);
                assert(xor_range(g, k as int, k as int) == false);
                assert(xor_range(g, k as int, k + 1) == g(k as int));
                assert(coeff(p@, k as int) == p@[j as int]);
                assert(g(k as int) == (coeff(f@, d - k) && coeff(p@, k as int)));
                // How this coefficient changed in this step:
                if p@[j as int] {
                    if 0 <= d < ll {
                        let idx = ll - 1 - d;
                        assert(coeff(r@, d) == r@[idx]);
                        assert(coeff(r_entry, d) == r_entry[idx]);
                        if dp - k <= idx < dp - k + fl {
                            assert(r@[idx] == (r_entry[idx] != f@[idx - (dp - k)]));
                            assert(f@[idx - (dp - k)] == coeff(f@, d - k));
                        } else {
                            assert(r@[idx] == r_entry[idx]);
                            if idx < dp - k {
                                assert(d - k >= fl);
                            }
                            assert(!coeff(f@, d - k));
                        }
                    } else {
                        assert(!coeff(r@, d));
                        assert(!coeff(r_entry, d));
                        if d >= ll {
                            assert(d - k >= fl);
                            assert(!coeff(f@, d - k));
                        }
                    }
                } else {
                    assert(!g(k as int));
                    assert(r@ == r_entry);
                }
                assert(coeff(r@, d) == (g(k as int) != coeff(r_entry, d)));
            }
        }
        j = j + 1;
    }
    proof {
        lemma_pmul_coeff(f@, p@);
        lemma_fit_coeff(pmul(f@, p@), ll as int);
        assert forall|d: int| 0 <= d < ll implies #[trigger] coeff(r@, d) == coeff(
            fit(pmul(f@, p@), ll as int),
            d,
        ) by {
            lemma_mulc_extend(f@, p@, d, dp + 1);
        }
        assert forall|i: int| 0 <= i < ll implies r@[i] == fit(pmul(f@, p@), ll as int)[i] by {
            assert(coeff(r@, ll - 1 - i) == r@[i]);
            assert(coeff(fit(pmul(f@, p@), ll as int), ll - 1 - i) == fit(
                pmul(f@, p@),
                ll as int,
            )[i]);
        }
        assert(r@ =~= fit(pmul(f@, p@), ll as int));
    }
    r
}

/// Product of a list of polynomials over GF(2), folded from the left
/// starting at the constant one; see `spec_multiply_list`.
pub fn finite_multiply_bitvecs(vec: &Vec<BitVec>) -> (r: BitVec)
    requires
        total_len(views_of(vec@)) < MAX_BITS,
    ensures
        r@ == spec_multiply_list(views_of(vec@)),
        r@.len() <= total_len(views_of(vec@)) + 1,
{
    let ghost vs = views_of(vec@);
    let mut folded = BitVec::new();
    folded.push(true);
    proof {
        assert(folded@ =~= seq![true]);
        assert(vs.subrange(0, 0) =~= Seq::<Seq<bool>>::empty());
    }
    let mut i: usize = 0;
    while i < vec.len()
        invariant
            i <= vec@.len(),
            vs == views_of(vec@),
            total_len(vs) < MAX_BITS,
            folded@ == spec_multiply_list(vs.subrange(0, i as int)),
            folded@.len() <= 1 + total_len(vs.subrange(0, i as int)),
        decreases vec@.len() - i,
    {
        proof {
            lemma_total_len_push(vs, i as int);
            lemma_total_len_prefix(vs, i + 1);
            lemma_pdeg(vs[i as int]);
            assert(vs[i as int] == bits_of(vec@[i as int]));
        }
        let next = mul_step(&folded, &vec[i]);
        proof {
            assert(vs.subrange(0, i + 1).drop_last() =~= vs.subrange(0, i as int));
            assert(vs.subrange(0, i + 1).last() == vs[i as int]);
            assert(next@ == spec_multiply_list(vs.subrange(0, i + 1)));
        }
        folded = next;
        i = i + 1;
    }
    proof {
        assert(vs.subrange(0, vec@.len() as int) =~= vs);
    }
    folded
}

} // verus!
