//! Specification-level model of polynomials over GF(2).
//!
//! A polynomial is modelled as a `Seq<bool>` whose leftmost entry is the
//! highest-degree coefficient; `coeff` reads the coefficient of `x^d`, so
//! sequences that differ only in leading zeros denote the same polynomial
//! (`pequiv`).  Multiplication is defined through `xor_range`, a fold of
//! exclusive-or over an integer interval, which gives the convolution sum
//! of coefficients in GF(2).

use vstd::prelude::*;
use crate::BchError;

verus! {

/// Coefficient of `x^d` in the polynomial denoted by `s`.
pub open spec fn coeff(s: Seq<bool>, d: int) -> bool {
    if 0 <= d < s.len() {
        s[s.len() - 1 - d]
    } else {
        false
    }
}

/// Two bit sequences denote the same polynomial.
pub open spec fn pequiv(a: Seq<bool>, b: Seq<bool>) -> bool {
    forall|d: int| #[trigger] coeff(a, d) == #[trigger] coeff(b, d)
}

/// The all-zero polynomial.
pub open spec fn is_zero_poly(s: Seq<bool>) -> bool {
    forall|d: int| !(#[trigger] coeff(s, d))
}

/// `s` with its leading zero coefficients removed.
pub open spec fn strip(s: Seq<bool>) -> Seq<bool>
    decreases s.len(),
{
    if s.len() == 0 {
        s
    } else if s[0] {
        s
    } else {
        strip(s.subrange(1, s.len() as int))
    }
}

/// Degree of the polynomial denoted by `s`; the zero polynomial has
/// degree -1.
pub open spec fn pdeg(s: Seq<bool>) -> int {
    strip(s).len() - 1
}

/// `s` right-aligned in a window of `l` bits: pads with leading zeros, or
/// cuts leading entries, as needed.
pub open spec fn fit(s: Seq<bool>, l: int) -> Seq<bool> {
    Seq::new(l as nat, |i: int| coeff(s, l - 1 - i))
}

/// Sum (exclusive-or) of two polynomials, right-aligned, with the length
/// of the longer operand.
pub open spec fn pxor(a: Seq<bool>, b: Seq<bool>) -> Seq<bool> {
    let l = if a.len() >= b.len() {
        a.len() as int
    } else {
        b.len() as int
    };
    Seq::new(l as nat, |i: int| coeff(a, l - 1 - i) != coeff(b, l - 1 - i))
}

/// Exclusive-or of `f` over the integer interval `[lo, hi)`.
pub open spec fn xor_range(f: spec_fn(int) -> bool, lo: int, hi: int) -> bool
    decreases hi - lo,
{
    if lo >= hi {
        false
    } else {
        f(hi - 1) != xor_range(f, lo, hi - 1)
    }
}

/// The convolution term of the product coefficient at `x^d`, as a
/// function of the index into `b`.
pub open spec fn conv_term(a: Seq<bool>, b: Seq<bool>, d: int) -> spec_fn(int) -> bool {
    |j: int| coeff(a, d - j) && coeff(b, j)
}

/// Coefficient of `x^d` in the product of `a` and `b`: the GF(2)
/// convolution sum over the coefficients of `b`.
pub open spec fn mulc(a: Seq<bool>, b: Seq<bool>, d: int) -> bool {
    xor_range(conv_term(a, b, d), 0, d + 1)
}

/// The product of `a` and `b` as a sequence, one leading slot longer than
/// the degree sum can fill.
pub open spec fn pmul(a: Seq<bool>, b: Seq<bool>) -> Seq<bool> {
    let l = a.len() + b.len();
    Seq::new(l, |i: int| mulc(a, b, l - 1 - i))
}

/// The monomial `x^k` (as the shortest sequence denoting it).
pub open spec fn monomial(k: int) -> Seq<bool> {
    Seq::new((k + 1) as nat, |i: int| i == 0)
}

// ------------------------------------------------------------------
// Basic facts about strip, pdeg and fit.
// ------------------------------------------------------------------

/// Stripping preserves every coefficient.
pub proof fn lemma_strip_coeff(s: Seq<bool>)
    ensures
        strip(s).len() <= s.len(),
        strip(s).len() > 0 ==> strip(s)[0],
        forall|d: int| #[trigger] coeff(strip(s), d) == coeff(s, d),
    decreases s.len(),
{
    if s.len() == 0 || s[0] {
    } else {
        let s1 = s.subrange(1, s.len() as int);
        lemma_strip_coeff(s1);
        assert forall|d: int| #[trigger] coeff(strip(s), d) == coeff(s, d) by {
            if 0 <= d < s1.len() {
                assert(s1[s1.len() - 1 - d] == s[s.len() - 1 - d]);
            }
        }
    }
}

/// A scan that stops at the first set bit identifies the stripped tail.
pub proof fn lemma_strip_from_scan(s: Seq<bool>, i: int)
    requires
        0 <= i <= s.len(),
        forall|j: int| 0 <= j < i ==> !s[j],
        i < s.len() ==> s[i],
    ensures
        strip(s) == s.subrange(i, s.len() as int),
    decreases i,
{
    if i == 0 {
        if s.len() == 0 {
            assert(strip(s) =~= s.subrange(0, s.len() as int));
        } else {
            assert(s[0]);
            assert(strip(s) =~= s.subrange(0, s.len() as int));
        }
    } else {
        let s1 = s.subrange(1, s.len() as int);
        assert(!s[0]);
        lemma_strip_from_scan(s1, i - 1);
        assert(s1.subrange(i - 1, s1.len() as int) =~= s.subrange(i, s.len() as int));
    }
}

/// No coefficient lies above the degree; the leading coefficient is set.
pub proof fn lemma_pdeg(s: Seq<bool>)
    ensures
        pdeg(s) < s.len(),
        forall|d: int| d > pdeg(s) ==> !(#[trigger] coeff(s, d)),
        pdeg(s) >= 0 ==> coeff(s, pdeg(s)),
        pdeg(s) == -1 <==> is_zero_poly(s),
{
    lemma_strip_coeff(s);
    let t = strip(s);
    assert forall|d: int| d > pdeg(s) implies !(#[trigger] coeff(s, d)) by {
        assert(coeff(t, d) == coeff(s, d));
    }
    if pdeg(s) >= 0 {
        assert(coeff(t, t.len() - 1) == t[0]);
    }
    if pdeg(s) == -1 {
        assert forall|d: int| !(#[trigger] coeff(s, d)) by {
            assert(coeff(t, d) == coeff(s, d));
        }
    } else {
        assert(coeff(s, pdeg(s)));
    }
}

/// Coefficients of a right-aligned window.
pub proof fn lemma_fit_coeff(s: Seq<bool>, l: int)
    requires
        l >= 0,
    ensures
        fit(s, l).len() == l,
        forall|d: int| 0 <= d < l ==> #[trigger] coeff(fit(s, l), d) == coeff(s, d),
        forall|d: int| d >= l ==> !(#[trigger] coeff(fit(s, l), d)),
{
}

/// Coefficients of a sum: pointwise exclusive-or.
pub proof fn lemma_pxor_coeff(a: Seq<bool>, b: Seq<bool>)
    ensures
        pxor(a, b).len() == if a.len() >= b.len() { a.len() } else { b.len() },
        forall|d: int| #[trigger] coeff(pxor(a, b), d) == (coeff(a, d) != coeff(b, d)),
{
    let l = if a.len() >= b.len() {
        a.len() as int
    } else {
        b.len() as int
    };
    assert forall|d: int| #[trigger] coeff(pxor(a, b), d) == (coeff(a, d) != coeff(b, d)) by {
        if 0 <= d < l {
            assert(pxor(a, b)[l - 1 - d] == (coeff(a, d) != coeff(b, d)));
        }
    }
}

// ------------------------------------------------------------------
// Facts about xor_range.
// ------------------------------------------------------------------

/// Functions that agree on the interval fold to the same value.
pub proof fn lemma_xor_range_congruence(
    f: spec_fn(int) -> bool,
    g: spec_fn(int) -> bool,
    lo: int,
    hi: int,
)
    requires
        forall|j: int| lo <= j < hi ==> #[trigger] f(j) == g(j),
    ensures
        xor_range(f, lo, hi) == xor_range(g, lo, hi),
    decreases hi - lo,
{
    if lo < hi {
        lemma_xor_range_congruence(f, g, lo, hi - 1);
    }
}

/// The fold over an interval splits at any midpoint.
pub proof fn lemma_xor_range_split(f: spec_fn(int) -> bool, lo: int, mid: int, hi: int)
    requires
        lo <= mid <= hi,
    ensures
        xor_range(f, lo, hi) == (xor_range(f, lo, mid) != xor_range(f, mid, hi)),
    decreases hi - mid,
{
    if mid < hi {
        lemma_xor_range_split(f, lo, mid, hi - 1);
    }
}

/// A fold of all-false terms is false.
pub proof fn lemma_xor_range_false(f: spec_fn(int) -> bool, lo: int, hi: int)
    requires
        forall|j: int| lo <= j < hi ==> !(#[trigger] f(j)),
    ensures
        !xor_range(f, lo, hi),
    decreases hi - lo,
{
    if lo < hi {
        lemma_xor_range_false(f, lo, hi - 1);
    }
}

/// A fold with a single possibly-true term equals that term.
pub proof fn lemma_xor_range_single(f: spec_fn(int) -> bool, lo: int, hi: int, m: int)
    requires
        lo <= m < hi,
        forall|j: int| lo <= j < hi && j != m ==> !(#[trigger] f(j)),
    ensures
        xor_range(f, lo, hi) == f(m),
{
    lemma_xor_range_split(f, lo, m, hi);
    lemma_xor_range_split(f, m, m + 1, hi);
    lemma_xor_range_false(f, lo, m);
    lemma_xor_range_false(f, m + 1, hi);
    assert(xor_range(f, m, m) == false);
    assert(xor_range(f, m, m + 1) == f(m));
}

/// The fold distributes over pointwise exclusive-or.
pub proof fn lemma_xor_range_pointwise(
    f: spec_fn(int) -> bool,
    g: spec_fn(int) -> bool,
    h: spec_fn(int) -> bool,
    lo: int,
    hi: int,
)
    requires
        forall|j: int| lo <= j < hi ==> #[trigger] f(j) == (g(j) != h(j)),
    ensures
        xor_range(f, lo, hi) == (xor_range(g, lo, hi) != xor_range(h, lo, hi)),
    decreases hi - lo,
{
    if lo < hi {
        lemma_xor_range_pointwise(f, g, h, lo, hi - 1);
    }
}

/// Shifting the index range by a constant does not change the fold.
pub proof fn lemma_xor_range_offset(
    f: spec_fn(int) -> bool,
    g: spec_fn(int) -> bool,
    lo: int,
    hi: int,
    k: int,
)
    requires
        forall|j: int| lo <= j < hi ==> #[trigger] g(j) == f(j + k),
    ensures
        xor_range(g, lo, hi) == xor_range(f, lo + k, hi + k),
    decreases hi - lo,
{
    if lo < hi {
        lemma_xor_range_offset(f, g, lo, hi - 1, k);
    }
}

/// Reversing the order of the terms does not change the fold.
pub proof fn lemma_xor_range_reverse(f: spec_fn(int) -> bool, g: spec_fn(int) -> bool, lo: int, hi: int)
    requires
        forall|j: int| lo <= j < hi ==> #[trigger] g(j) == f(lo + hi - 1 - j),
    ensures
        xor_range(g, lo, hi) == xor_range(f, lo, hi),
    decreases hi - lo,
{
    if lo < hi {
        let f2 = |j: int| f(j + 1);
        assert forall|j: int| lo <= j < hi - 1 implies #[trigger] g(j) == f2(lo + (hi - 1) - 1 - j) by {
            assert(g(j) == f(lo + hi - 1 - j));
        }
        lemma_xor_range_reverse(f2, g, lo, hi - 1);
        lemma_xor_range_offset(f, f2, lo, hi - 1, 1);
        lemma_xor_range_split(f, lo, lo + 1, hi);
        assert(xor_range(f, lo, lo) == false);
        assert(xor_range(f, lo, lo + 1) == f(lo));
        assert(g(hi - 1) == f(lo));
    }
}

// ------------------------------------------------------------------
// Facts about multiplication.
// ------------------------------------------------------------------

/// Multiplication of polynomials is commutative.
pub proof fn lemma_mulc_comm(a: Seq<bool>, b: Seq<bool>, d: int)
    ensures
        mulc(a, b, d) == mulc(b, a, d),
{
    let f = conv_term(b, a, d);
    let g = conv_term(a, b, d);
    if d >= 0 {
        assert forall|j: int| 0 <= j < d + 1 implies #[trigger] g(j) == f(0 + (d + 1) - 1 - j) by {
            assert(f(d - j) == (coeff(b, j) && coeff(a, d - j)));
        }
        lemma_xor_range_reverse(f, g, 0, d + 1);
    }
}

/// Replacing either factor by an equivalent sequence leaves every product
/// coefficient unchanged.
pub proof fn lemma_mulc_congruence(a: Seq<bool>, a2: Seq<bool>, b: Seq<bool>, b2: Seq<bool>, d: int)
    requires
        pequiv(a, a2),
        pequiv(b, b2),
    ensures
        mulc(a, b, d) == mulc(a2, b2, d),
{
    let f = conv_term(a, b, d);
    let g = conv_term(a2, b2, d);
    assert forall|j: int| 0 <= j < d + 1 implies #[trigger] f(j) == g(j) by {
        assert(coeff(a, d - j) == coeff(a2, d - j));
        assert(coeff(b, j) == coeff(b2, j));
    }
    lemma_xor_range_congruence(f, g, 0, d + 1);
}

/// Above the degree sum every product coefficient vanishes.
pub proof fn lemma_mulc_above(a: Seq<bool>, b: Seq<bool>, d: int)
    requires
        d > pdeg(a) + pdeg(b),
    ensures
        !mulc(a, b, d),
{
    lemma_pdeg(a);
    lemma_pdeg(b);
    let f = conv_term(a, b, d);
    assert forall|j: int| 0 <= j < d + 1 implies !(#[trigger] f(j)) by {
        if coeff(b, j) {
            assert(j <= pdeg(b));
            assert(d - j > pdeg(a));
            assert(!coeff(a, d - j));
        }
    }
    lemma_xor_range_false(f, 0, d + 1);
}

/// The coefficient at the degree sum of two non-zero polynomials is set.
pub proof fn lemma_mulc_leading(a: Seq<bool>, b: Seq<bool>)
    requires
        pdeg(a) >= 0,
        pdeg(b) >= 0,
    ensures
        mulc(a, b, pdeg(a) + pdeg(b)),
{
    lemma_pdeg(a);
    lemma_pdeg(b);
    let d = pdeg(a) + pdeg(b);
    let f = conv_term(a, b, d);
    assert forall|j: int| 0 <= j < d + 1 && j != pdeg(b) implies !(#[trigger] f(j)) by {
        if coeff(b, j) {
            assert(j < pdeg(b));
            assert(d - j > pdeg(a));
        }
    }
    lemma_xor_range_single(f, 0, d + 1, pdeg(b));
    assert(f(pdeg(b)) == (coeff(a, pdeg(a)) && coeff(b, pdeg(b))));
}

/// Multiplication distributes over addition in the second factor.
pub proof fn lemma_mulc_distrib(a: Seq<bool>, b: Seq<bool>, c: Seq<bool>, d: int)
    ensures
        mulc(a, pxor(b, c), d) == (mulc(a, b, d) != mulc(a, c, d)),
{
    lemma_pxor_coeff(b, c);
    let f = conv_term(a, pxor(b, c), d);
    let g = conv_term(a, b, d);
    let h = conv_term(a, c, d);
    assert forall|j: int| 0 <= j < d + 1 implies #[trigger] f(j) == (g(j) != h(j)) by {
        assert(coeff(pxor(b, c), j) == (coeff(b, j) != coeff(c, j)));
    }
    lemma_xor_range_pointwise(f, g, h, 0, d + 1);
}

/// Multiplying by the monomial `x^k` shifts every coefficient up by `k`.
pub proof fn lemma_mulc_monomial(a: Seq<bool>, k: int, d: int)
    requires
        k >= 0,
    ensures
        mulc(a, monomial(k), d) == coeff(a, d - k),
{
    let b = monomial(k);
    assert(b.len() == k + 1);
    assert forall|j: int| #[trigger] coeff(b, j) == (j == k) by {
        if 0 <= j < b.len() {
            assert(b[b.len() - 1 - j] == (b.len() - 1 - j == 0));
        }
    }
    let f = conv_term(a, b, d);
    if 0 <= k <= d {
        assert forall|j: int| 0 <= j < d + 1 && j != k implies !(#[trigger] f(j)) by {
            assert(coeff(b, j) == (j == k));
        }
        lemma_xor_range_single(f, 0, d + 1, k);
        assert(f(k) == coeff(a, d - k));
    } else {
        assert forall|j: int| 0 <= j < d + 1 implies !(#[trigger] f(j)) by {
            assert(coeff(b, j) == (j == k));
        }
        lemma_xor_range_false(f, 0, d + 1);
    }
}

/// The product of a polynomial with the constant one.
pub proof fn lemma_mulc_one(a: Seq<bool>, d: int)
    ensures
        mulc(a, monomial(0), d) == coeff(a, d),
{
    lemma_mulc_monomial(a, 0, d);
}

/// A product with the zero polynomial has no coefficients.
pub proof fn lemma_mulc_zero_factor(a: Seq<bool>, b: Seq<bool>, d: int)
    requires
        is_zero_poly(b),
    ensures
        !mulc(a, b, d),
{
    let f = conv_term(a, b, d);
    assert forall|j: int| 0 <= j < d + 1 implies !(#[trigger] f(j)) by {
        assert(!coeff(b, j));
    }
    lemma_xor_range_false(f, 0, d + 1);
}

/// The sequence `pmul(a, b)` holds exactly the product coefficients.
pub proof fn lemma_pmul_coeff(a: Seq<bool>, b: Seq<bool>)
    ensures
        forall|d: int| #[trigger] coeff(pmul(a, b), d) == mulc(a, b, d),
{
    let l = a.len() + b.len();
    lemma_pdeg(a);
    lemma_pdeg(b);
    assert forall|d: int| #[trigger] coeff(pmul(a, b), d) == mulc(a, b, d) by {
        if 0 <= d < l {
            assert(pmul(a, b)[l - 1 - d] == mulc(a, b, d));
        } else if d >= l {
            lemma_mulc_above(a, b, d);
        } else {
            assert(xor_range(|j: int| coeff(a, d - j) && coeff(b, j), 0, d + 1) == false);
        }
    }
}

/// Multiplying the second factor by `x` shifts every product coefficient
/// up by one.
pub proof fn lemma_pmul_shift_up(a: Seq<bool>, q: Seq<bool>)
    ensures
        forall|d: int| #[trigger] mulc(a, pmul(q, monomial(1)), d) == mulc(a, q, d - 1),
{
    let q1 = pmul(q, monomial(1));
    lemma_pmul_coeff(q, monomial(1));
    assert forall|d: int| #[trigger] mulc(a, q1, d) == mulc(a, q, d - 1) by {
        let f = conv_term(a, q1, d);
        let g = conv_term(a, q, d - 1);
        assert forall|j: int| 1 <= j < d + 1 implies #[trigger] f(j) == g(j + (-1)) by {
            lemma_mulc_monomial(q, 1, j);
            assert(coeff(q1, j) == mulc(q, monomial(1), j));
        }
        lemma_xor_range_offset(g, f, 1, d + 1, -1);
        if d >= 0 {
            lemma_xor_range_split(f, 0, 1, d + 1);
            assert(xor_range(f, 0, 0) == false);
            lemma_mulc_monomial(q, 1, 0);
            assert(coeff(q1, 0) == coeff(q, -1));
            assert(!f(0));
            assert(xor_range(f, 0, 1) == f(0));
        }
    }
}

// ------------------------------------------------------------------
// Further sequence-level models used by the executable operations.
// ------------------------------------------------------------------

/// Cyclic rotation: entry `i` of the result is entry `(i + n) mod len` of
/// `s`, so positive `n` rotates towards the front.
pub open spec fn spec_cyclic(s: Seq<bool>, n: int) -> Seq<bool> {
    Seq::new(s.len(), |i: int| s[(i + n) % (s.len() as int)])
}

/// Number of set bits.
pub open spec fn count_trues(s: Seq<bool>) -> nat
    decreases s.len(),
{
    if s.len() == 0 {
        0
    } else {
        count_trues(s.drop_last()) + if s.last() {
            1nat
        } else {
            0nat
        }
    }
}

/// Sum of the lengths of a list of sequences.
pub open spec fn total_len(vs: Seq<Seq<bool>>) -> nat
    decreases vs.len(),
{
    if vs.len() == 0 {
        0
    } else {
        total_len(vs.drop_last()) + vs.last().len()
    }
}

/// One step of the product fold: the accumulated factor times the next
/// polynomial, right-aligned in a window that ends exactly at the next
/// polynomial's degree; a zero factor collapses the window to one bit.
pub open spec fn spec_mul_step(f: Seq<bool>, p: Seq<bool>) -> Seq<bool> {
    if pdeg(p) < 0 {
        seq![false]
    } else {
        fit(pmul(f, p), f.len() + pdeg(p))
    }
}

/// Product of a list of polynomials, folded from the left starting at the
/// constant one.
pub open spec fn spec_multiply_list(vs: Seq<Seq<bool>>) -> Seq<bool>
    decreases vs.len(),
{
    if vs.len() == 0 {
        seq![true]
    } else {
        spec_mul_step(spec_multiply_list(vs.drop_last()), vs.last())
    }
}

/// The product coefficient is a fold over any interval that covers both
/// the coefficient index and the second factor's degree.
pub proof fn lemma_mulc_extend(a: Seq<bool>, b: Seq<bool>, d: int, hi: int)
    requires
        hi >= 0,
        hi > pdeg(b),
    ensures
        mulc(a, b, d) == xor_range(conv_term(a, b, d), 0, hi),
{
    let f = conv_term(a, b, d);
    lemma_pdeg(b);
    if hi >= d + 1 {
        if d + 1 >= 0 {
            lemma_xor_range_split(f, 0, d + 1, hi);
            assert forall|j: int| d + 1 <= j < hi implies !(#[trigger] f(j)) by {
                assert(!coeff(a, d - j));
            }
            lemma_xor_range_false(f, d + 1, hi);
        } else {
            lemma_xor_range_false(f, 0, hi);
        }
    } else {
        lemma_xor_range_split(f, 0, hi, d + 1);
        assert forall|j: int| hi <= j < d + 1 implies !(#[trigger] f(j)) by {
            assert(!coeff(b, j));
        }
        lemma_xor_range_false(f, hi, d + 1);
    }
}

/// Prefixes of a list never exceed the whole list's total length.
pub proof fn lemma_total_len_prefix(vs: Seq<Seq<bool>>, i: int)
    requires
        0 <= i <= vs.len(),
    ensures
        total_len(vs.subrange(0, i)) <= total_len(vs),
        i == vs.len() ==> total_len(vs.subrange(0, i)) == total_len(vs),
    decreases vs.len(),
{
    if i == vs.len() {
        assert(vs.subrange(0, i) =~= vs);
    } else {
        assert(vs.drop_last() =~= vs.subrange(0, vs.len() - 1));
        lemma_total_len_prefix(vs.drop_last(), i);
        assert(vs.drop_last().subrange(0, i) =~= vs.subrange(0, i));
    }
}

/// Appending one sequence adds its length to the total.
pub proof fn lemma_total_len_push(vs: Seq<Seq<bool>>, i: int)
    requires
        0 <= i < vs.len(),
    ensures
        total_len(vs.subrange(0, i + 1)) == total_len(vs.subrange(0, i)) + vs[i].len(),
{
    let pre = vs.subrange(0, i + 1);
    assert(pre.drop_last() =~= vs.subrange(0, i));
    assert(pre.last() == vs[i]);
}

/// Counting set bits grows by the appended bit.
pub proof fn lemma_count_trues_push(s: Seq<bool>, b: bool)
    ensures
        count_trues(s.push(b)) == count_trues(s) + if b {
            1nat
        } else {
            0nat
        },
{
    assert(s.push(b).drop_last() =~= s);
}

/// A sequence with no set bits counts zero, and conversely.
pub proof fn lemma_count_trues_zero(s: Seq<bool>)
    ensures
        (count_trues(s) == 0) <==> (forall|i: int| 0 <= i < s.len() ==> !s[i]),
    decreases s.len(),
{
    if s.len() > 0 {
        lemma_count_trues_zero(s.drop_last());
        if count_trues(s) == 0 {
            assert forall|i: int| 0 <= i < s.len() implies !s[i] by {
                if i < s.len() - 1 {
                    assert(s.drop_last()[i] == s[i]);
                }
            }
        } else {
            if forall|i: int| 0 <= i < s.len() ==> !s[i] {
                assert forall|i: int| 0 <= i < s.len() - 1 implies !s.drop_last()[i] by {
                    assert(s.drop_last()[i] == s[i]);
                }
                assert(!s.last());
            }
        }
    }
}

// ------------------------------------------------------------------
// Long division over GF(2), on sequences in storage order.
// ------------------------------------------------------------------

/// Elementwise exclusive-or of two windows of equal length.
pub open spec fn sxor(a: Seq<bool>, b: Seq<bool>) -> Seq<bool> {
    Seq::new(a.len(), |i: int| a[i] != b[i])
}

/// Drops the leading bit of the working remainder and pulls in the next
/// dividend bit on the right.
pub open spec fn shift_in(acc: Seq<bool>, bit: bool) -> Seq<bool> {
    acc.subrange(1, acc.len() as int).push(bit)
}

/// One step of binary long division.
pub open spec fn div_step(acc: Seq<bool>, tb: Seq<bool>, bit: bool) -> Seq<bool> {
    let sh = shift_in(acc, bit);
    if sh.len() > 0 && sh[0] {
        sxor(sh, tb)
    } else {
        sh
    }
}

/// The division loop over the dividend bits from index `i` on.
pub open spec fn div_loop(acc: Seq<bool>, ta: Seq<bool>, tb: Seq<bool>, i: int) -> Seq<bool>
    decreases ta.len() - i,
{
    if i < 0 || i >= ta.len() {
        acc
    } else {
        div_loop(div_step(acc, tb, ta[i]), ta, tb, i + 1)
    }
}

/// Remainder of dividing `a` by `b`, as the long-division algorithm
/// computes it: both operands are stripped of leading zeros first; a zero
/// divisor is an error; a divisor longer than the stripped dividend
/// returns the stripped dividend; otherwise the remainder window has
/// exactly the stripped divisor's length minus one.
pub open spec fn spec_remainder(a: Seq<bool>, b: Seq<bool>) -> Result<Seq<bool>, BchError> {
    let ta = strip(a);
    let tb = strip(b);
    if tb.len() == 0 {
        Result::Err(BchError::DivisionByZero)
    } else if tb.len() > ta.len() {
        Result::Ok(ta)
    } else {
        let acc0 = sxor(ta.subrange(0, tb.len() as int), tb);
        let accf = div_loop(acc0, ta, tb, tb.len() as int);
        Result::Ok(accf.subrange(1, accf.len() as int))
    }
}

/// One division step preserves the decomposition `prefix = q * tb + acc`.
proof fn lemma_div_step_decomp(acc: Seq<bool>, tb: Seq<bool>, a_pre: Seq<bool>, bit: bool, q: Seq<bool>)
    requires
        tb.len() >= 1,
        tb[0],
        acc.len() == tb.len(),
        !acc[0],
        pequiv(a_pre, pxor(pmul(tb, q), acc)),
    ensures
        div_step(acc, tb, bit).len() == tb.len(),
        !div_step(acc, tb, bit)[0],
        exists|q2: Seq<bool>|
            pequiv(a_pre.push(bit), pxor(pmul(tb, q2), div_step(acc, tb, bit))),
{
    let l = tb.len() as int;
    let sh = shift_in(acc, bit);
    let q1 = pmul(q, monomial(1));
    lemma_pmul_shift_up(tb, q);
    lemma_pmul_coeff(tb, q);
    lemma_pmul_coeff(tb, q1);
    lemma_pxor_coeff(pmul(tb, q), acc);

    // Coefficients of the shifted working remainder.
    assert forall|d: int| #[trigger] coeff(sh, d) == if d == 0 {
        bit
    } else {
        coeff(acc, d - 1)
    } by {
        if d == 0 {
            assert(sh[l - 1] == bit);
        } else if 1 <= d < l {
            assert(sh[l - 1 - d] == acc[l - d]);
        } else if d >= l {
            assert(coeff(acc, d - 1) == if d - 1 == l - 1 {
                acc[0]
            } else {
                false
            });
        }
    }

    // Coefficients of the extended prefix.
    assert forall|d: int| #[trigger] coeff(a_pre.push(bit), d) == if d == 0 {
        bit
    } else {
        coeff(a_pre, d - 1)
    } by {
        let ln = a_pre.len() as int;
        if d == 0 {
            assert(a_pre.push(bit)[ln] == bit);
        } else if 1 <= d <= ln {
            assert(a_pre.push(bit)[ln - d] == a_pre[ln - d]);
        }
    }

    // The prefix extended by one bit decomposes against the shifted
    // remainder with the shifted quotient.
    assert forall|d: int| #[trigger] coeff(a_pre.push(bit), d) == (mulc(tb, q1, d)
        != coeff(sh, d)) by {
        if d == 0 {
            assert(mulc(tb, q1, 0) == mulc(tb, q, -1));
            assert(mulc(tb, q, -1) == false);
        } else {
            assert(coeff(a_pre, d - 1) == coeff(pxor(pmul(tb, q), acc), d - 1));
            assert(coeff(pmul(tb, q), d - 1) == mulc(tb, q, d - 1));
            assert(mulc(tb, q1, d) == mulc(tb, q, d - 1));
        }
    }

    if sh[0] {
        let acc2 = sxor(sh, tb);
        assert(div_step(acc, tb, bit) == acc2);
        assert(!acc2[0]);
        let q2 = pxor(q1, monomial(0));
        lemma_pmul_coeff(tb, q2);
        assert forall|d: int| #[trigger] coeff(acc2, d) == (coeff(sh, d) != coeff(tb, d)) by {
            if 0 <= d < l {
                assert(acc2[l - 1 - d] == (sh[l - 1 - d] != tb[l - 1 - d]));
            }
        }
        assert forall|d: int| #[trigger] coeff(a_pre.push(bit), d) == coeff(
            pxor(pmul(tb, q2), acc2),
            d,
        ) by {
            lemma_mulc_distrib(tb, q1, monomial(0), d);
            lemma_mulc_one(tb, d);
            lemma_pxor_coeff(pmul(tb, q2), acc2);
            assert(mulc(tb, q2, d) == (mulc(tb, q1, d) != coeff(tb, d)));
            assert(coeff(a_pre.push(bit), d) == (mulc(tb, q1, d) != coeff(sh, d)));
        }
        assert(pequiv(a_pre.push(bit), pxor(pmul(tb, q2), acc2)));
    } else {
        assert(div_step(acc, tb, bit) == sh);
        assert forall|d: int| #[trigger] coeff(a_pre.push(bit), d) == coeff(
            pxor(pmul(tb, q1), sh),
            d,
        ) by {
            lemma_pxor_coeff(pmul(tb, q1), sh);
        }
        assert(pequiv(a_pre.push(bit), pxor(pmul(tb, q1), sh)));
    }
}

/// Running the division loop keeps the decomposition of the processed
/// prefix, ending with a decomposition of the whole dividend.
proof fn lemma_div_loop_decomp(acc: Seq<bool>, ta: Seq<bool>, tb: Seq<bool>, i: int)
    requires
        tb.len() >= 1,
        tb[0],
        tb.len() as int <= i <= ta.len(),
        acc.len() == tb.len(),
        !acc[0],
        exists|q: Seq<bool>| pequiv(ta.subrange(0, i), pxor(pmul(tb, q), acc)),
    ensures
        div_loop(acc, ta, tb, i).len() == tb.len(),
        !div_loop(acc, ta, tb, i)[0],
        exists|q: Seq<bool>| pequiv(ta, pxor(pmul(tb, q), div_loop(acc, ta, tb, i))),
    decreases ta.len() - i,
{
    if i == ta.len() {
        assert(ta.subrange(0, i) =~= ta);
    } else {
        let q = choose|q: Seq<bool>| pequiv(ta.subrange(0, i), pxor(pmul(tb, q), acc));
        lemma_div_step_decomp(acc, tb, ta.subrange(0, i), ta[i], q);
        assert(ta.subrange(0, i).push(ta[i]) =~= ta.subrange(0, i + 1));
        lemma_div_loop_decomp(div_step(acc, tb, ta[i]), ta, tb, i + 1);
    }
}

/// The long-division remainder decomposes the dividend: there is a
/// quotient `q` with `a = q * b + r`, and `r`'s degree lies below `b`'s.
pub proof fn lemma_spec_remainder_decomp(a: Seq<bool>, b: Seq<bool>)
    requires
        pdeg(b) >= 0,
    ensures
        spec_remainder(a, b) is Ok,
        pdeg(spec_remainder(a, b)->Ok_0) < pdeg(b),
        exists|q: Seq<bool>| pequiv(a, pxor(pmul(b, q), spec_remainder(a, b)->Ok_0)),
{
    let ta = strip(a);
    let tb = strip(b);
    lemma_strip_coeff(a);
    lemma_strip_coeff(b);
    lemma_pdeg(a);
    lemma_pdeg(b);
    assert(tb.len() >= 1);
    assert(tb[0]);
    if tb.len() > ta.len() {
        let r = ta;
        let q = Seq::<bool>::empty();
        lemma_pmul_coeff(b, q);
        assert forall|d: int| #[trigger] coeff(a, d) == coeff(pxor(pmul(b, q), r), d) by {
            lemma_pxor_coeff(pmul(b, q), r);
            lemma_mulc_zero_factor(b, q, d);
            assert(!mulc(b, q, d));
        }
        assert(pequiv(a, pxor(pmul(b, q), r)));
        // The degree of the stripped dividend lies below the divisor's.
        lemma_strip_coeff(ta);
        assert(strip(ta).len() <= ta.len());
    } else {
        let l = tb.len() as int;
        let acc0 = sxor(ta.subrange(0, l), tb);
        // The initial window decomposes the first l dividend bits with
        // quotient one.
        assert(ta[0]);
        assert(!acc0[0]);
        let q0 = monomial(0);
        lemma_pmul_coeff(tb, q0);
        assert forall|d: int| #[trigger] coeff(ta.subrange(0, l), d) == coeff(
            pxor(pmul(tb, q0), acc0),
            d,
        ) by {
            lemma_pxor_coeff(pmul(tb, q0), acc0);
            lemma_mulc_one(tb, d);
            if 0 <= d < l {
                assert(coeff(ta.subrange(0, l), d) == ta.subrange(0, l)[l - 1 - d]);
                assert(acc0[l - 1 - d] == (ta.subrange(0, l)[l - 1 - d] != tb[l - 1 - d]));
                assert(coeff(acc0, d) == (coeff(ta.subrange(0, l), d) != coeff(tb, d)));
            } else {
                assert(coeff(acc0, d) == false);
                assert(coeff(tb, d) == false);
            }
        }
        assert(pequiv(ta.subrange(0, l), pxor(pmul(tb, q0), acc0)));
        lemma_div_loop_decomp(acc0, ta, tb, l);
        let accf = div_loop(acc0, ta, tb, l);
        let r = accf.subrange(1, accf.len() as int);
        // Dropping the cleared leading bit of the final window changes no
        // coefficient.
        assert forall|d: int| #[trigger] coeff(r, d) == coeff(accf, d) by {
            if 0 <= d < l - 1 {
                assert(r[l - 2 - d] == accf[l - 1 - d]);
            } else if d == l - 1 {
                assert(coeff(accf, d) == accf[0]);
            }
        }
        let qf = choose|q: Seq<bool>| pequiv(ta, pxor(pmul(tb, q), accf));
        assert(pequiv(ta, pxor(pmul(tb, qf), accf)));
        assert forall|d: int| #[trigger] coeff(tb, d) == coeff(b, d) by {}
        assert(pequiv(tb, b));
        assert forall|d: int| #[trigger] coeff(a, d) == coeff(pxor(pmul(b, qf), r), d) by {
            lemma_pxor_coeff(pmul(tb, qf), accf);
            lemma_pxor_coeff(pmul(b, qf), r);
            lemma_pmul_coeff(tb, qf);
            lemma_pmul_coeff(b, qf);
            lemma_mulc_congruence(tb, b, qf, qf, d);
            assert(coeff(ta, d) == coeff(pxor(pmul(tb, qf), accf), d));
            assert(coeff(pxor(pmul(tb, qf), accf), d) == (mulc(tb, qf, d) != coeff(accf, d)));
            assert(coeff(pxor(pmul(b, qf), r), d) == (mulc(b, qf, d) != coeff(r, d)));
            assert(coeff(r, d) == coeff(accf, d));
        }
        assert(pequiv(a, pxor(pmul(b, qf), r)));
        // Degree bound: the remainder window is one bit shorter than the
        // stripped divisor.
        lemma_strip_coeff(r);
        assert(pdeg(r) <= r.len() - 1);
        assert(r.len() == l - 1);
    }
}

/// Uniqueness of remainders: two decompositions of the same polynomial
/// against the same divisor, both with remainder degree below the
/// divisor's, have equal remainders.
pub proof fn lemma_remainder_unique(
    b: Seq<bool>,
    q1: Seq<bool>,
    r1: Seq<bool>,
    q2: Seq<bool>,
    r2: Seq<bool>,
)
    requires
        pdeg(b) >= 0,
        pdeg(r1) < pdeg(b),
        pdeg(r2) < pdeg(b),
        pequiv(pxor(pmul(b, q1), r1), pxor(pmul(b, q2), r2)),
    ensures
        pequiv(r1, r2),
{
    let qd = pxor(q1, q2);
    lemma_pdeg(r1);
    lemma_pdeg(r2);
    lemma_pdeg(b);
    lemma_pdeg(qd);
    lemma_pmul_coeff(b, q1);
    lemma_pmul_coeff(b, q2);
    lemma_pxor_coeff(pmul(b, q1), r1);
    lemma_pxor_coeff(pmul(b, q2), r2);
    // Pointwise: mulc(b, qd, d) == coeff(r1, d) != coeff(r2, d).
    assert forall|d: int| #[trigger] mulc(b, qd, d) == (coeff(r1, d) != coeff(r2, d)) by {
        lemma_mulc_distrib(b, q1, q2, d);
        assert(coeff(pxor(pmul(b, q1), r1), d) == coeff(pxor(pmul(b, q2), r2), d));
    }
    if pdeg(qd) >= 0 {
        let dd = pdeg(b) + pdeg(qd);
        lemma_mulc_leading(b, qd);
        assert(mulc(b, qd, dd));
        assert(dd > pdeg(r1));
        assert(!coeff(r1, dd));
        assert(!coeff(r2, dd));
        assert(false);
    }
    assert(is_zero_poly(qd));
    assert forall|d: int| #[trigger] coeff(r1, d) == coeff(r2, d) by {
        lemma_mulc_zero_factor(b, qd, d);
    }
}

/// Dividing a product by its own right factor leaves the zero remainder,
/// for any non-zero divisor.
pub proof fn lemma_remainder_of_product(a: Seq<bool>, b: Seq<bool>)
    requires
        pdeg(b) >= 0,
    ensures
        spec_remainder(spec_multiply_list(seq![a, b]), b) is Ok,
        is_zero_poly(spec_remainder(spec_multiply_list(seq![a, b]), b)->Ok_0),
{
    let f1 = spec_mul_step(seq![true], a);
    let w = spec_multiply_list(seq![a, b]);
    assert(seq![a, b].drop_last() =~= seq![a]);
    assert(seq![a].drop_last() =~= Seq::<Seq<bool>>::empty());
    assert(seq![a, b].last() == b);
    assert(seq![a].last() == a);
    assert(spec_multiply_list(Seq::<Seq<bool>>::empty()) == seq![true]);
    assert(spec_multiply_list(seq![a]) == spec_mul_step(seq![true], a));
    assert(w == spec_mul_step(spec_multiply_list(seq![a]), b));
    assert(w == spec_mul_step(f1, b));
    lemma_pdeg(b);
    lemma_pdeg(f1);
    let l = f1.len() + pdeg(b);
    lemma_fit_coeff(pmul(f1, b), l);
    lemma_pmul_coeff(f1, b);
    lemma_pmul_coeff(b, f1);
    assert forall|d: int| #[trigger] coeff(w, d) == coeff(pmul(b, f1), d) by {
        lemma_mulc_comm(f1, b, d);
        if 0 <= d < l {
            assert(coeff(w, d) == coeff(pmul(f1, b), d));
        } else if d >= l {
            lemma_mulc_above(f1, b, d);
            assert(!coeff(w, d));
        }
    }
    assert(pequiv(w, pmul(b, f1)));
    lemma_remainder_of_multiple(w, b, f1);
}

/// A product of polynomials that all carry a set leading coefficient
/// carries one itself: it has no leading zeros, so its degree is its
/// length minus one.
pub proof fn lemma_multiply_list_monic(vs: Seq<Seq<bool>>)
    requires
        forall|i: int| 0 <= i < vs.len() ==> (#[trigger] vs[i]).len() >= 1 && vs[i][0],
    ensures
        spec_multiply_list(vs).len() >= 1,
        spec_multiply_list(vs)[0],
    decreases vs.len(),
{
    if vs.len() == 0 {
        assert(spec_multiply_list(vs) == seq![true]);
        assert(seq![true][0]);
    } else {
        assert forall|i: int|
            0 <= i < vs.drop_last().len() implies (#[trigger] vs.drop_last()[i]).len() >= 1
            && vs.drop_last()[i][0] by {
            assert(vs.drop_last()[i] == vs[i]);
        }
        lemma_multiply_list_monic(vs.drop_last());
        let f = spec_multiply_list(vs.drop_last());
        let p = vs.last();
        assert(p.len() >= 1 && p[0]);
        assert(strip(p) == p);
        assert(pdeg(p) == p.len() - 1);
        assert(strip(f) == f);
        assert(pdeg(f) == f.len() - 1);
        let w = spec_multiply_list(vs);
        assert(w == spec_mul_step(f, p));
        let l = f.len() + pdeg(p);
        assert(w == fit(pmul(f, p), l));
        assert(l >= 1);
        lemma_fit_coeff(pmul(f, p), l);
        lemma_pmul_coeff(f, p);
        lemma_mulc_leading(f, p);
        assert(w[0] == coeff(pmul(f, p), l - 1));
        assert(l - 1 == pdeg(f) + pdeg(p));
        assert(coeff(pmul(f, p), pdeg(f) + pdeg(p)) == mulc(f, p, pdeg(f) + pdeg(p)));
    }
}

/// Rotating by `n` and back by `-n` restores the sequence, and rotating
/// by the whole length is the identity.
pub proof fn lemma_cyclic_round_trip(s: Seq<bool>, n: int)
    ensures
        spec_cyclic(spec_cyclic(s, n), -n) == s,
        spec_cyclic(s, s.len() as int) == s,
{
    let l = s.len() as int;
    if l == 0 {
        assert(spec_cyclic(spec_cyclic(s, n), -n) =~= s);
        assert(spec_cyclic(s, l) =~= s);
    } else {
        assert forall|i: int| 0 <= i < l implies spec_cyclic(spec_cyclic(s, n), -n)[i]
            == s[i] by {
            let inner = spec_cyclic(s, n);
            let m = (i + -n) % l;
            vstd::arithmetic::div_mod::lemma_mod_division_less_than_divisor(i + -n, l);
            assert(spec_cyclic(inner, -n)[i] == inner[m]);
            assert(inner[m] == s[(m + n) % l]);
            vstd::arithmetic::div_mod::lemma_add_mod_noop_right(n, i + -n, l);
            assert((n + (i + -n) % l) % l == (n + (i + -n)) % l);
            vstd::arithmetic::div_mod::lemma_small_mod(i as nat, s.len());
            assert((m + n) % l == i);
        }
        assert(spec_cyclic(spec_cyclic(s, n), -n) =~= s);
        assert forall|i: int| 0 <= i < l implies spec_cyclic(s, l)[i] == s[i] by {
            vstd::arithmetic::div_mod::lemma_mod_add_multiples_vanish(i, l);
            vstd::arithmetic::div_mod::lemma_small_mod(i as nat, s.len());
            assert((i + l) % l == i);
        }
        assert(spec_cyclic(s, l) =~= s);
    }
}

/// Dividing any multiple of `b` by `b` leaves the zero remainder.
pub proof fn lemma_remainder_of_multiple(w: Seq<bool>, b: Seq<bool>, q: Seq<bool>)
    requires
        pdeg(b) >= 0,
        pequiv(w, pmul(b, q)),
    ensures
        spec_remainder(w, b) is Ok,
        is_zero_poly(spec_remainder(w, b)->Ok_0),
{
    lemma_spec_remainder_decomp(w, b);
    let r = spec_remainder(w, b)->Ok_0;
    let qw = choose|qq: Seq<bool>| pequiv(w, pxor(pmul(b, qq), r));
    let rz = Seq::<bool>::empty();
    assert(pdeg(rz) == -1);
    assert forall|d: int| #[trigger] coeff(pxor(pmul(b, q), rz), d) == coeff(
        pxor(pmul(b, qw), r),
        d,
    ) by {
        lemma_pxor_coeff(pmul(b, q), rz);
        lemma_pxor_coeff(pmul(b, qw), r);
        assert(coeff(w, d) == coeff(pxor(pmul(b, qw), r), d));
        assert(coeff(w, d) == coeff(pmul(b, q), d));
        assert(!coeff(rz, d));
    }
    lemma_remainder_unique(b, q, rz, qw, r);
    assert forall|d: int| !(#[trigger] coeff(r, d)) by {
        assert(coeff(rz, d) == coeff(r, d));
    }
    lemma_pdeg(r);
}

} // verus!
