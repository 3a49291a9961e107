//! The Berlekamp iterative decoder: syndromes from the minimal
//! polynomials of the first cosets, the key-equation iteration for the
//! error-locator polynomial, and the root search that locates and flips
//! the errored bits.
//!
//! Polynomials over GF(2^m) are carried in logarithmic form: a
//! coefficient is the exponent of the primitive element, or -1 for the
//! zero element.  Logarithms are reduced modulo the group order
//! `q1 = 2^m - 1`.

use vstd::prelude::*;
use crate::bits::BitVec;
use crate::bits::MAX_BITS;
use crate::bitvec_operations::copy_range;
use crate::bitvec_operations::remainder_divide;
use crate::common;
use crate::common::table_views;
use crate::decoder::Decoder;
use crate::encoder::spec_codec_wf;
use crate::poly::coeff;
use crate::poly::spec_remainder;
use crate::BchError;

verus! {

/// The integer values of a log-form coefficient vector.
pub open spec fn logs_of(v: Seq<i32>) -> Seq<int> {
    v.map_values(|x: i32| x as int)
}

/// The integer values of a list of log-form vectors.
pub open spec fn logs2_of(v: Seq<Vec<i32>>) -> Seq<Seq<int>> {
    v.map_values(|x: Vec<i32>| logs_of(x@))
}

/// Every coefficient is a valid logarithm or the zero sentinel.
pub open spec fn logs_in_range(v: Seq<int>, q1: int) -> bool {
    forall|i: int| 0 <= i < v.len() ==> -1 <= #[trigger] v[i] <= q1
}

/// Sum of two field elements in log form over the addition table; -1 is
/// the zero element and the additive identity.
pub open spec fn spec_add_logs(a: int, b: int, table: Seq<Seq<i32>>) -> int {
    if a == -1 {
        b
    } else if b == -1 {
        a
    } else {
        table[a][b] as int
    }
}

/// The locator candidate times `alpha^x_alpha * x^x_power`: every
/// coefficient moves up `x_power` places and gains `x_alpha` in its
/// logarithm.
pub open spec fn spec_mul_sigma(sigma: Seq<int>, x_power: int, x_alpha: int, q1: int) -> Seq<
    int,
> {
    Seq::new(
        (sigma.len() + x_power) as nat,
        |idx: int|
            {
                let rev = sigma.len() + x_power - 1 - idx;
                if rev >= x_power {
                    let v = sigma[sigma.len() - 1 - (rev - x_power)];
                    if v == -1 {
                        -1
                    } else {
                        (x_alpha + v) % q1
                    }
                } else {
                    -1
                }
            },
    )
}

/// Sum of two locator candidates: right-aligned, coefficients added in
/// the field; a sum that cancels is the zero coefficient.
pub open spec fn spec_add_sigma(a: Seq<int>, b: Seq<int>, q1: int, table: Seq<Seq<i32>>) -> Seq<
    int,
> {
    let l = if a.len() >= b.len() {
        a.len() as int
    } else {
        b.len() as int
    };
    Seq::new(
        l as nat,
        |idx: int|
            {
                let rev = l - 1 - idx;
                let va = if rev < a.len() {
                    a[a.len() - 1 - rev]
                } else {
                    -1
                };
                let vb = if rev < b.len() {
                    b[b.len() - 1 - rev]
                } else {
                    -1
                };
                if va == -1 {
                    vb
                } else if vb == -1 {
                    va
                } else {
                    let s = spec_add_logs(va, vb, table);
                    if s == -1 {
                        -1
                    } else {
                        s % q1
                    }
                }
            },
    )
}

/// The row picked for the correction step: among the earlier rows with a
/// non-zero discrepancy, one maximizing the step count, ties resolved
/// towards the latest row.
pub open spec fn spec_find_rho(dus: Seq<int>, dulus: Seq<int>, upto: int) -> int
    decreases upto,
{
    if upto <= 1 {
        0
    } else {
        let prev = spec_find_rho(dus, dulus, upto - 1);
        if dus[upto - 1] != -1 && (dus[prev] == -1 || dulus[upto - 1] >= dulus[prev]) {
            upto - 1
        } else {
            prev
        }
    }
}

/// Whether `mp` is the minimal polynomial of the coset of some start
/// exponent up to `t2` whose orbit holds `j`.
pub open spec fn spec_minpol_for(mp: Seq<bool>, j: int, t2: int, q1: int, table: Seq<Seq<i32>>) -> bool {
    exists|e: int, l: Seq<u32>|
        1 <= e <= t2 && #[trigger] common::is_orbit_of(l, e, q1) && common::sorted_strict(l)
            && l.contains(j as u32) && mp == common::spec_min_pol(l, q1, table)
}

/// One minimal polynomial per syndrome index `1 ..= t2`.
pub open spec fn spec_minpols_ok(mpols: Seq<Seq<bool>>, t2: int, q1: int, table: Seq<Seq<i32>>) -> bool {
    &&& mpols.len() == t2
    &&& forall|j: int|
        0 <= j < t2 ==> #[trigger] spec_minpol_for(mpols[j], j + 1, t2, q1, table)
}

/// The logarithm of a syndrome value: each set coefficient of the residue
/// at degree `p` contributes `alpha^(p * mult)`, folded through the
/// addition table.
pub open spec fn spec_syn_log(
    s: Seq<bool>,
    mult: int,
    q1: int,
    table: Seq<Seq<i32>>,
    upto: int,
) -> int
    decreases upto,
{
    if upto <= 0 {
        -1
    } else {
        let prev = spec_syn_log(s, mult, q1, table, upto - 1);
        if coeff(s, upto - 1) {
            spec_add_logs(prev, (mult * (upto - 1)) % q1, table)
        } else {
            prev
        }
    }
}

/// The syndrome vector in log form: entry `i` evaluates the residue of
/// the word under the `i+1`-th minimal polynomial at `alpha^(i+1)`.
pub open spec fn spec_syndromes(
    word: Seq<bool>,
    mpols: Seq<Seq<bool>>,
    q1: int,
    table: Seq<Seq<i32>>,
) -> Seq<int> {
    Seq::new(
        mpols.len(),
        |i: int|
            {
                let rem = spec_remainder(word, mpols[i])->Ok_0;
                spec_syn_log(rem, i + 1, q1, table, rem.len() as int)
            },
    )
}

/// The discrepancy of the fresh locator row: the next syndrome plus the
/// locator-weighted earlier syndromes, in the field.
pub open spec fn spec_bk_disc_fold(
    sigma: Seq<int>,
    syn: Seq<int>,
    u_idx: int,
    q1: int,
    table: Seq<Seq<i32>>,
    i: int,
) -> int
    decreases i,
{
    if i <= 0 {
        if 0 <= 2 * u_idx < syn.len() {
            syn[2 * u_idx]
        } else {
            -1
        }
    } else {
        let prev = spec_bk_disc_fold(sigma, syn, u_idx, q1, table, i - 1);
        let si = sigma[sigma.len() - 1 - i];
        let sy = if 0 <= 2 * u_idx - i < syn.len() {
            syn[2 * u_idx - i]
        } else {
            -1
        };
        if si == -1 || sy == -1 {
            prev
        } else {
            spec_add_logs(prev, (si + sy) % q1, table)
        }
    }
}

pub open spec fn spec_bk_disc(
    sigma: Seq<int>,
    syn: Seq<int>,
    u_idx: int,
    q1: int,
    table: Seq<Seq<i32>>,
) -> int {
    spec_bk_disc_fold(sigma, syn, u_idx, q1, table, sigma.len() - 1)
}

/// The next locator candidate: unchanged on a zero discrepancy, else
/// corrected by the picked earlier row shifted to the current step.
pub open spec fn spec_bk_next_sigma(
    sigmas: Seq<Seq<int>>,
    dus: Seq<int>,
    dulus: Seq<int>,
    u_idx: int,
    q1: int,
    table: Seq<Seq<i32>>,
) -> Seq<int> {
    let du = dus[u_idx];
    if du == -1 {
        sigmas[u_idx]
    } else {
        let rho = spec_find_rho(dus, dulus, u_idx);
        let x_power = if rho == 0 {
            2 * u_idx - 1
        } else {
            2 * (u_idx - rho)
        };
        let x_alpha = (du - dus[rho]) % q1;
        spec_add_sigma(sigmas[u_idx], spec_mul_sigma(sigmas[rho], x_power, x_alpha, q1), q1, table)
    }
}

/// The iteration table after `r - 1` correction steps: row 0 is the
/// half-step seed row, row 1 the start row, and row `r` carries the
/// locator candidate of step `r - 1`.
pub open spec fn spec_bk_rows(syn: Seq<int>, t: int, q1: int, table: Seq<Seq<i32>>, r: int) -> (
    Seq<Seq<int>>,
    Seq<int>,
    Seq<int>,
    Seq<int>,
)
    decreases r,
{
    if r <= 1 {
        (
            seq![seq![0int], seq![0int]],
            seq![
                0int,
                if syn.len() > 0 {
                    syn[0]
                } else {
                    -1int
                },
            ],
            seq![0int, 0int],
            seq![-1int, 0int],
        )
    } else {
        let state = spec_bk_rows(syn, t, q1, table, r - 1);
        let u_idx = r - 1;
        let ns = spec_bk_next_sigma(state.0, state.1, state.3, u_idx, q1, table);
        let nl = ns.len() - 1;
        let nd = if u_idx < t {
            spec_bk_disc(ns, syn, u_idx, q1, table)
        } else {
            -1int
        };
        (state.0.push(ns), state.1.push(nd), state.2.push(nl), state.3.push(2 * u_idx - nl))
    }
}

/// The error-locator polynomial of step `t`.
pub open spec fn spec_bk_sigma(syn: Seq<int>, t: int, q1: int, table: Seq<Seq<i32>>) -> Seq<
    int,
> {
    spec_bk_rows(syn, t, q1, table, t + 1).0.last()
}

/// The locator evaluated at `alpha^(-j)`, in log form.
pub open spec fn spec_eval_fold(
    sigma: Seq<int>,
    j: int,
    q1: int,
    table: Seq<Seq<i32>>,
    upto: int,
) -> int
    decreases upto,
{
    if upto <= 0 {
        -1
    } else {
        let prev = spec_eval_fold(sigma, j, q1, table, upto - 1);
        let p = upto - 1;
        let sp = sigma[sigma.len() - 1 - p];
        if sp == -1 {
            prev
        } else {
            spec_add_logs(prev, (sp - j * p) % q1, table)
        }
    }
}

/// The error positions: exponents `j` below `n` at which the locator
/// vanishes, ascending.
pub open spec fn spec_roots_upto(sigma: Seq<int>, q1: int, table: Seq<Seq<i32>>, j: int) -> Seq<
    int,
>
    decreases j,
{
    if j <= 0 {
        Seq::empty()
    } else {
        let prev = spec_roots_upto(sigma, q1, table, j - 1);
        if spec_eval_fold(sigma, j - 1, q1, table, sigma.len() as int) == -1 {
            prev.push(j - 1)
        } else {
            prev
        }
    }
}

/// Flips the located error bits and splits the corrected word: fails when
/// the number of located roots differs from the locator's degree, or a
/// root points outside the word.
pub open spec fn spec_bk_correct(
    word: Seq<bool>,
    sigma: Seq<int>,
    n: int,
    k: int,
    q1: int,
    table: Seq<Seq<i32>>,
) -> Result<(Seq<bool>, Seq<bool>), BchError> {
    let roots = spec_roots_upto(sigma, q1, table, n);
    if roots.len() != sigma.len() - 1 {
        Err(BchError::DecodeFailure)
    } else if exists|ri: int| 0 <= ri < roots.len() && #[trigger] roots[ri] >= word.len() {
        Err(BchError::DecodeFailure)
    } else {
        let corrected = Seq::new(
            word.len(),
            |idx: int|
                if roots.contains(word.len() - 1 - idx) {
                    !word[idx]
                } else {
                    word[idx]
                },
        );
        let kk = if k <= corrected.len() {
            k
        } else {
            corrected.len() as int
        };
        Ok((corrected.subrange(0, kk), corrected.subrange(kk, corrected.len() as int)))
    }
}

/// The whole decoder over a given list of minimal polynomials.
pub open spec fn spec_bk_decode(
    word: Seq<bool>,
    mpols: Seq<Seq<bool>>,
    n: int,
    k: int,
    t: int,
    q1: int,
    table: Seq<Seq<i32>>,
) -> Result<(Seq<bool>, Seq<bool>), BchError> {
    if word.len() > n {
        Err(BchError::InputTooLong)
    } else {
        let syn = spec_syndromes(word, mpols, q1, table);
        spec_bk_correct(word, spec_bk_sigma(syn, t, q1, table), n, k, q1, table)
    }
}

/// Whether an executable decoding result carries exactly the bits of a
/// specification-level one.
pub open spec fn spec_result_matches(
    res: Result<(BitVec, BitVec), BchError>,
    sr: Result<(Seq<bool>, Seq<bool>), BchError>,
) -> bool {
    match res {
        Ok(p) => sr is Ok && p.0@ == sr->Ok_0.0 && p.1@ == sr->Ok_0.1,
        Err(e) => sr is Err && e == sr->Err_0,
    }
}

/// Under all-vanishing syndromes, every iteration row keeps the constant
/// locator and a zero discrepancy.
proof fn lemma_bk_rows_syndrome_free(
    syn: Seq<int>,
    t: int,
    q1: int,
    table: Seq<Seq<i32>>,
    r: int,
)
    requires
        r >= 1,
        forall|i: int| 0 <= i < syn.len() ==> #[trigger] syn[i] == -1,
    ensures
        spec_bk_rows(syn, t, q1, table, r).0.len() == r + 1,
        spec_bk_rows(syn, t, q1, table, r).1.len() == r + 1,
        spec_bk_rows(syn, t, q1, table, r).3.len() == r + 1,
        forall|x: int|
            1 <= x <= r ==> #[trigger] spec_bk_rows(syn, t, q1, table, r).0[x] == seq![0int],
        forall|x: int| 1 <= x <= r ==> #[trigger] spec_bk_rows(syn, t, q1, table, r).1[x] == -1,
        spec_bk_rows(syn, t, q1, table, r).0[0] == seq![0int],
    decreases r,
{
    if r == 1 {
        if syn.len() > 0 {
            assert(syn[0] == -1);
        }
    } else {
        lemma_bk_rows_syndrome_free(syn, t, q1, table, r - 1);
        let st = spec_bk_rows(syn, t, q1, table, r - 1);
        let u_idx = r - 1;
        assert(st.1[u_idx] == -1);
        let ns = spec_bk_next_sigma(st.0, st.1, st.3, u_idx, q1, table);
        assert(ns == st.0[u_idx]);
        assert(ns == seq![0int]);
        if u_idx < t {
            // The fresh discrepancy folds over a one-coefficient locator:
            // only the base syndrome term remains, and it vanishes.
            assert(spec_bk_disc(ns, syn, u_idx, q1, table) == spec_bk_disc_fold(
                ns,
                syn,
                u_idx,
                q1,
                table,
                0,
            ));
            if 0 <= 2 * u_idx < syn.len() {
                assert(syn[2 * u_idx] == -1);
            }
        }
    }
}

/// A word whose syndromes all vanish decodes to itself: the locator stays
/// constant, the root search finds nothing, and the word is split
/// unchanged into message and parity.
pub proof fn lemma_decode_syndrome_free(
    word: Seq<bool>,
    mpols: Seq<Seq<bool>>,
    n: int,
    k: int,
    t: int,
    q1: int,
    table: Seq<Seq<i32>>,
)
    requires
        word.len() == n,
        0 <= k,
        t >= 0,
        q1 >= 1,
        forall|i: int|
            0 <= i < mpols.len() ==> #[trigger] spec_syndromes(word, mpols, q1, table)[i] == -1,
    ensures
        ({
            let kk = if k <= n {
                k
            } else {
                n
            };
            spec_bk_decode(word, mpols, n, k, t, q1, table) == Result::<
                (Seq<bool>, Seq<bool>),
                BchError,
            >::Ok((word.subrange(0, kk), word.subrange(kk, n)))
        }),
{
    let syn = spec_syndromes(word, mpols, q1, table);
    assert(forall|i: int| 0 <= i < syn.len() ==> #[trigger] syn[i] == -1);
    lemma_bk_rows_syndrome_free(syn, t, q1, table, t + 1);
    let sigma = spec_bk_sigma(syn, t, q1, table);
    assert(sigma == spec_bk_rows(syn, t, q1, table, t + 1).0[t + 1]);
    assert(sigma == seq![0int]);
    // The constant locator never vanishes.
    assert forall|j: int| #[trigger] spec_eval_fold(sigma, j, q1, table, 1) == 0 by {
        assert(spec_eval_fold(sigma, j, q1, table, 0) == -1);
        assert(sigma[0] == 0);
        assert((0 - j * 0) % q1 == 0) by {
            assert(j * 0 == 0) by (nonlinear_arith);
            vstd::arithmetic::div_mod::lemma_small_mod(0nat, q1 as nat);
        }
    }
    assert forall|j: int| 0 <= j <= n implies #[trigger] spec_roots_upto(sigma, q1, table, j)
        == Seq::<int>::empty() by {
        assert(spec_roots_upto(sigma, q1, table, j) =~= Seq::<int>::empty()) by {
            lemma_roots_empty(sigma, q1, table, j);
        }
    }
    let roots = spec_roots_upto(sigma, q1, table, n);
    assert(roots.len() == 0);
    assert(sigma.len() - 1 == 0);
    let kk = if k <= n {
        k
    } else {
        n
    };
    let corrected = Seq::new(
        word.len(),
        |idx: int|
            if roots.contains(word.len() - 1 - idx) {
                !word[idx]
            } else {
                word[idx]
            },
    );
    assert(corrected =~= word);
    assert(spec_bk_correct(word, sigma, n, k, q1, table) == Result::<
        (Seq<bool>, Seq<bool>),
        BchError,
    >::Ok((word.subrange(0, kk), word.subrange(kk, n))));
}

/// A residue with no set coefficients contributes the zero syndrome.
proof fn lemma_syn_log_of_zero(
    rem: Seq<bool>,
    mult: int,
    q1: int,
    table: Seq<Seq<i32>>,
    upto: int,
)
    requires
        crate::poly::is_zero_poly(rem),
    ensures
        spec_syn_log(rem, mult, q1, table, upto) == -1,
    decreases upto,
{
    if upto > 0 {
        lemma_syn_log_of_zero(rem, mult, q1, table, upto - 1);
        assert(!coeff(rem, upto - 1));
    }
}

/// A word that every supplied minimal polynomial divides decodes to
/// itself, split into message and parity: all its syndromes vanish.
pub proof fn lemma_decode_of_common_multiple(
    word: Seq<bool>,
    mpols: Seq<Seq<bool>>,
    n: int,
    k: int,
    t: int,
    q1: int,
    table: Seq<Seq<i32>>,
)
    requires
        word.len() == n,
        0 <= k,
        t >= 0,
        q1 >= 1,
        forall|i: int|
            0 <= i < mpols.len() ==> spec_remainder(word, #[trigger] mpols[i]) is Ok
                && crate::poly::is_zero_poly(spec_remainder(word, mpols[i])->Ok_0),
    ensures
        ({
            let kk = if k <= n {
                k
            } else {
                n
            };
            spec_bk_decode(word, mpols, n, k, t, q1, table) == Result::<
                (Seq<bool>, Seq<bool>),
                BchError,
            >::Ok((word.subrange(0, kk), word.subrange(kk, n)))
        }),
{
    let syn = spec_syndromes(word, mpols, q1, table);
    assert forall|i: int| 0 <= i < mpols.len() implies #[trigger] syn[i] == -1 by {
        let rem = spec_remainder(word, mpols[i])->Ok_0;
        lemma_syn_log_of_zero(rem, i + 1, q1, table, rem.len() as int);
    }
    lemma_decode_syndrome_free(word, mpols, n, k, t, q1, table);
}

/// A locator that never evaluates to zero yields no roots.
proof fn lemma_roots_empty(sigma: Seq<int>, q1: int, table: Seq<Seq<i32>>, j: int)
    requires
        sigma.len() == 1,
        forall|jj: int| #[trigger] spec_eval_fold(sigma, jj, q1, table, 1) == 0,
    ensures
        spec_roots_upto(sigma, q1, table, j) == Seq::<int>::empty(),
    decreases j,
{
    if j > 0 {
        lemma_roots_empty(sigma, q1, table, j - 1);
        assert(spec_eval_fold(sigma, j - 1, q1, table, 1) == 0);
    }
}

/// A decoder holding the generator polynomial and the field's addition
/// table.
pub struct BerlekampDecoder {
    n: i32,
    k: i32,
    t: i32,
    gen_poly: BitVec,
    adding_table: Vec<Vec<i32>>,
}

impl BerlekampDecoder {
    /// The code length.
    pub closed spec fn view_n(&self) -> int {
        self.n as int
    }

    /// The message length.
    pub closed spec fn view_k(&self) -> int {
        self.k as int
    }

    /// The number of correctable errors.
    pub closed spec fn view_t(&self) -> int {
        self.t as int
    }

    /// The generator polynomial's bits.
    pub closed spec fn view_gen(&self) -> Seq<bool> {
        self.gen_poly@
    }

    /// The addition table's rows.
    pub closed spec fn view_table(&self) -> Seq<Seq<i32>> {
        table_views(self.adding_table@)
    }

    /// The multiplicative group order 2^m - 1.
    pub open spec fn view_q1(&self) -> int {
        self.view_table().len() - 1
    }

    /// Consistency of this instance.
    pub open spec fn wf(&self) -> bool {
        &&& spec_codec_wf(self.view_n(), self.view_k(), self.view_gen())
        &&& 0 <= self.view_t()
        &&& 2 * self.view_t() < 0x1000
        &&& 2 <= self.view_table().len() <= 0x10000
        &&& (forall|i: int|
            0 <= i < self.view_table().len() ==> (#[trigger] self.view_table()[i]).len()
                == self.view_table().len())
        &&& (forall|i: int, j: int|
            0 <= i < self.view_table().len() && 0 <= j < self.view_table().len() ==> -1
                <= #[trigger] self.view_table()[i][j] < self.view_table().len())
    }

    /// Builds the generator polynomial and the addition table for the
    /// parameters and validates them, as `Encoder::new` does.
    pub fn new(n: i32, k: i32, t: i32, prime_poly: &BitVec) -> (r: Result<
        BerlekampDecoder,
        BchError,
    >)
        requires
            2 <= prime_poly@.len() <= 17,
            0 <= t < 0x800,
            0 <= k <= n,
            n < MAX_BITS,
        ensures
            r is Ok ==> r->Ok_0.wf() && r->Ok_0.view_n() == n && r->Ok_0.view_k() == k
                && r->Ok_0.view_t() == t && common::spec_is_gen_poly(
                r->Ok_0.view_gen(),
                prime_poly@,
                t as int,
            ) && r->Ok_0.view_table() == common::spec_adding_table(prime_poly@),
            r is Err ==> r->Err_0 == BchError::InvalidParameters && (exists|gp: Seq<bool>|
                #[trigger] common::spec_is_gen_poly(gp, prime_poly@, t as int)
                    && !common::spec_params_valid(n as int, k as int, gp, prime_poly@)),
            r is Err && 2 * (t as int) < common::two_pow((prime_poly@.len() - 1) as nat) - 1
                ==> (forall|gp: Seq<bool>|
                #[trigger] common::spec_is_gen_poly(gp, prime_poly@, t as int)
                    ==> !common::spec_params_valid(n as int, k as int, gp, prime_poly@)),
    {
        let prime_degree = (prime_poly.len() - 1) as i32;
        let (gen_poly, adding_table) = common::get_gen_poly_and_adding_table(
            prime_degree,
            t,
            prime_poly,
        );
        proof {
            common::lemma_two_pow_mono(1, (prime_poly@.len() - 1) as nat);
            common::lemma_two_pow_mono((prime_poly@.len() - 1) as nat, 16);
            reveal_with_fuel(common::two_pow, 17);
            assert(common::two_pow(16) == 0x10000);
            assert(common::two_pow(1) == 2);
        }
        match common::validate_params(n, k, &gen_poly, prime_poly) {
            Ok(()) => Ok(BerlekampDecoder { n, k, t, gen_poly, adding_table }),
            Err(e) => {
                proof {
                    // The conforming generator is unique, so rejection
                    // speaks for every conforming generator.
                    if 2 * (t as int) < common::two_pow((prime_poly@.len() - 1) as nat) - 1 {
                        assert forall|g2: Seq<bool>|
                            #[trigger] common::spec_is_gen_poly(g2, prime_poly@, t as int)
                                implies !common::spec_params_valid(
                            n as int,
                            k as int,
                            g2,
                            prime_poly@,
                        ) by {
                            common::lemma_gen_poly_unique(g2, gen_poly@, prime_poly@, t as int);
                        }
                    }
                }
                Err(e)
            },
        }
    }

    /// Sum of two field elements in log form; see `spec_add_logs`.
    fn add_alphas(&self, a1: i32, a2: i32) -> (r: i32)
        requires
            self.wf(),
            -1 <= a1 < self.view_table().len(),
            -1 <= a2 < self.view_table().len(),
        ensures
            r == spec_add_logs(a1 as int, a2 as int, self.view_table()),
            -1 <= r < self.view_table().len(),
    {
        if a1 == -1 {
            a2
        } else if a2 == -1 {
            a1
        } else {
            proof {
                assert(self.view_table()[a1 as int] == self.adding_table@[a1 as int]@);
                assert(self.view_table()[a1 as int][a2 as int] == self.adding_table@[a1 as int]@[a2 as int]);
            }
            self.adding_table[a1 as usize][a2 as usize]
        }
    }

    /// Reduces a non-negative logarithm modulo the group order.
    fn alpha_mod_n(&self, alpha: i32) -> (r: i32)
        requires
            self.wf(),
            0 <= alpha <= 2 * self.view_q1(),
        ensures
            r == (alpha as int) % self.view_q1(),
            0 <= r < self.view_q1(),
    {
        let q1 = (self.adding_table.len() - 1) as i32;
        let mut r = alpha;
        if r >= q1 {
            r = r - q1;
        }
        if r >= q1 {
            r = r - q1;
        }
        proof {
            if alpha >= 2 * q1 {
                vstd::arithmetic::div_mod::lemma_fundamental_div_mod_converse_mod(
                    alpha as int,
                    q1 as int,
                    2,
                    (alpha - 2 * q1) as int,
                );
            } else if alpha >= q1 {
                vstd::arithmetic::div_mod::lemma_fundamental_div_mod_converse_mod(
                    alpha as int,
                    q1 as int,
                    1,
                    (alpha - q1) as int,
                );
            } else {
                vstd::arithmetic::div_mod::lemma_small_mod(alpha as nat, q1 as nat);
            }
        }
        r
    }

    /// Euclidean difference of two logarithms modulo the group order.
    fn sub_mod(&self, a: i32, b: i32, q1: i32) -> (r: i32)
        requires
            self.wf(),
            q1 == self.view_q1(),
            0 <= a <= q1,
            0 <= b <= q1,
        ensures
            r == (a - b) % (q1 as int),
            0 <= r < q1,
    {
        let mut d = a - b;
        if d < 0 {
            d = d + q1;
        }
        if d >= q1 {
            d = d - q1;
        }
        proof {
            let di = (a - b) as int;
            let qi = q1 as int;
            if a - b < 0 {
                if a - b + q1 >= q1 {
                    vstd::arithmetic::div_mod::lemma_fundamental_div_mod_converse_mod(
                        di,
                        qi,
                        -1,
                        di + 2 * qi - qi,
                    );
                } else {
                    vstd::arithmetic::div_mod::lemma_fundamental_div_mod_converse_mod(
                        di,
                        qi,
                        -1,
                        di + qi,
                    );
                }
            } else if a - b >= q1 {
                vstd::arithmetic::div_mod::lemma_fundamental_div_mod_converse_mod(
                    di,
                    qi,
                    1,
                    di - qi,
                );
            } else {
                vstd::arithmetic::div_mod::lemma_fundamental_div_mod_converse_mod(di, qi, 0, di);
            }
        }
        d
    }

    /// Multiplies a locator candidate by `alpha^x_alpha * x^x_power`; see
    /// `spec_mul_sigma`.
    pub fn multiply_sigma_by_alpha_with_x(&self, sigma: &Vec<i32>, x_power: i32, x_alpha: i32)
        -> (r: Vec<i32>)
        requires
            self.wf(),
            0 <= x_power,
            sigma@.len() + x_power <= MAX_BITS,
            0 <= x_alpha < self.view_q1(),
            logs_in_range(logs_of(sigma@), self.view_q1()),
        ensures
            logs_of(r@) == spec_mul_sigma(
                logs_of(sigma@),
                x_power as int,
                x_alpha as int,
                self.view_q1(),
            ),
            logs_in_range(logs_of(r@), self.view_q1()),
            r@.len() == sigma@.len() + x_power,
    {
        let ghost target = spec_mul_sigma(
            logs_of(sigma@),
            x_power as int,
            x_alpha as int,
            self.view_q1(),
        );
        let q1 = (self.adding_table.len() - 1) as i32;
        let slen = sigma.len();
        let total = slen + (x_power as usize);
        let mut result: Vec<i32> = Vec::new();
        let mut idx: usize = 0;
        while idx < total
            invariant
                idx <= total,
                self.wf(),
                q1 == self.view_q1(),
                slen == sigma@.len(),
                total == slen + x_power,
                0 <= x_power,
                0 <= x_alpha < q1,
                logs_in_range(logs_of(sigma@), self.view_q1()),
                target == spec_mul_sigma(
                    logs_of(sigma@),
                    x_power as int,
                    x_alpha as int,
                    self.view_q1(),
                ),
                result@.len() == idx,
                forall|i: int| 0 <= i < idx ==> #[trigger] result@[i] as int == target[i],
                forall|i: int| 0 <= i < idx ==> -1 <= #[trigger] result@[i] <= q1,
            decreases total - idx,
        {
            let rev = total - 1 - idx;
            let val: i32 = if rev >= (x_power as usize) {
                let v = sigma[slen - 1 - (rev - (x_power as usize))];
                if v == -1 {
                    -1
                } else {
                    proof {
                        assert(logs_of(sigma@)[slen - 1 - (rev - x_power)] == v as int);
                    }
                    self.alpha_mod_n(x_alpha + v)
                }
            } else {
                -1
            };
            result.push(val);
            idx = idx + 1;
        }
        proof {
            assert(logs_of(result@) =~= target);
        }
        result
    }

    /// Adds two locator candidates coefficientwise in the field; see
    /// `spec_add_sigma`.
    pub fn add_to_sigma(&self, sigma: Vec<i32>, to_add: Vec<i32>) -> (r: Vec<i32>)
        requires
            self.wf(),
            logs_in_range(logs_of(sigma@), self.view_q1()),
            logs_in_range(logs_of(to_add@), self.view_q1()),
        ensures
            logs_of(r@) == spec_add_sigma(
                logs_of(sigma@),
                logs_of(to_add@),
                self.view_q1(),
                self.view_table(),
            ),
            logs_in_range(logs_of(r@), self.view_q1()),
            r@.len() == if sigma@.len() >= to_add@.len() {
                sigma@.len()
            } else {
                to_add@.len()
            },
    {
        let ghost target = spec_add_sigma(
            logs_of(sigma@),
            logs_of(to_add@),
            self.view_q1(),
            self.view_table(),
        );
        let q1 = (self.adding_table.len() - 1) as i32;
        let alen = sigma.len();
        let blen = to_add.len();
        let l = if alen >= blen {
            alen
        } else {
            blen
        };
        let mut result: Vec<i32> = Vec::new();
        let mut idx: usize = 0;
        while idx < l
            invariant
                idx <= l,
                self.wf(),
                q1 == self.view_q1(),
                alen == sigma@.len(),
                blen == to_add@.len(),
                l == if alen >= blen {
                    alen
                } else {
                    blen
                },
                logs_in_range(logs_of(sigma@), self.view_q1()),
                logs_in_range(logs_of(to_add@), self.view_q1()),
                target == spec_add_sigma(
                    logs_of(sigma@),
                    logs_of(to_add@),
                    self.view_q1(),
                    self.view_table(),
                ),
                result@.len() == idx,
                forall|i: int| 0 <= i < idx ==> #[trigger] result@[i] as int == target[i],
                forall|i: int| 0 <= i < idx ==> -1 <= #[trigger] result@[i] <= q1,
            decreases l - idx,
        {
            let rev = l - 1 - idx;
            let va: i32 = if rev < alen {
                sigma[alen - 1 - rev]
            } else {
                -1
            };
            let vb: i32 = if rev < blen {
                to_add[blen - 1 - rev]
            } else {
                -1
            };
            proof {
                if rev < alen {
                    assert(logs_of(sigma@)[alen - 1 - rev] == va as int);
                }
                if rev < blen {
                    assert(logs_of(to_add@)[blen - 1 - rev] == vb as int);
                }
            }
            let val: i32 = if va == -1 {
                vb
            } else if vb == -1 {
                va
            } else {
                let s = self.add_alphas(va, vb);
                if s == -1 {
                    -1
                } else {
                    self.alpha_mod_n(s)
                }
            };
            result.push(val);
            idx = idx + 1;
        }
        proof {
            assert(logs_of(result@) =~= target);
        }
        result
    }

    /// Bridges this instance's consistency to the stored table.
    proof fn table_facts(&self)
        requires
            self.wf(),
        ensures
            self.adding_table@.len() == self.view_table().len(),
            2 <= self.adding_table@.len() <= 0x10000,
            forall|i: int|
                0 <= i < self.adding_table@.len() ==> #[trigger] self.adding_table@[i]@.len()
                    == self.adding_table@.len(),
            forall|i: int, j: int|
                0 <= i < self.adding_table@.len() && 0 <= j < self.adding_table@.len() ==> -1
                    <= #[trigger] self.adding_table@[i]@[j] < self.adding_table@.len(),
    {
        assert forall|i: int|
            0 <= i < self.adding_table@.len() implies #[trigger] self.adding_table@[i]@.len()
            == self.adding_table@.len() by {
            assert(self.view_table()[i] == self.adding_table@[i]@);
        }
        assert forall|i: int, j: int|
            0 <= i < self.adding_table@.len() && 0 <= j < self.adding_table@.len() implies -1
            <= #[trigger] self.adding_table@[i]@[j] < self.adding_table@.len() by {
            assert(self.view_table()[i] == self.adding_table@[i]@);
        }
    }

    /// One minimal polynomial per syndrome index `1 ..= count`: the
    /// minimal polynomial of that exponent's coset.
    pub fn get_first_n_min_pols(&self, count: u32) -> (r: Vec<BitVec>)
        requires
            self.wf(),
            count <= 0x1000,
        ensures
            spec_minpols_ok(
                crate::bitvec_operations::views_of(r@),
                count as int,
                self.view_q1(),
                self.view_table(),
            ),
            forall|i: int|
                0 <= i < r@.len() ==> 1 <= #[trigger] crate::bits::bits_of(r@[i]).len() <= 0x20000
                    && crate::bits::bits_of(r@[i])[0],
    {
        proof {
            self.table_facts();
        }
        let ghost q1i = self.view_q1();
        let q = self.adding_table.len();
        let layers = common::get_n_first_layers(count, q);
        let mut min_pols: Vec<BitVec> = Vec::new();
        let mut e: u32 = 1;
        while e <= count
            invariant
                1 <= e <= count + 1,
                count <= 0x1000,
                self.wf(),
                q1i == self.view_q1(),
                q == self.adding_table@.len(),
                q == self.view_table().len(),
                2 <= q <= 0x10000,
                forall|i: int|
                    0 <= i < self.adding_table@.len() ==> #[trigger] self.adding_table@[i]@.len()
                        == self.adding_table@.len(),
                forall|i: int, j: int|
                    0 <= i < self.adding_table@.len() && 0 <= j < self.adding_table@.len() ==> -1
                        <= #[trigger] self.adding_table@[i]@[j] < self.adding_table@.len(),
                layers@.len() == count,
                forall|li: int|
                    0 <= li < count ==> common::sorted_strict(#[trigger] layers@[li]@) && (
                    forall|x: u32|
                        #[trigger] layers@[li]@.contains(x) <==> common::in_orbit(
                            x as int,
                            li + 1,
                            q - 1,
                        )),
                min_pols@.len() == e - 1,
                forall|j: int|
                    0 <= j < e - 1 ==> #[trigger] spec_minpol_for(
                        crate::bits::bits_of(min_pols@[j]),
                        j + 1,
                        count as int,
                        q1i,
                        self.view_table(),
                    ),
                forall|i: int|
                    0 <= i < min_pols@.len() ==> 1 <= #[trigger] crate::bits::bits_of(
                        min_pols@[i],
                    ).len() <= 0x20000 && crate::bits::bits_of(min_pols@[i])[0],
            decreases count - e + 1,
        {
            let layer = &layers[(e - 1) as usize];
            proof {
                assert forall|a: int| 0 <= a < layer@.len() implies #[trigger] layer@[a]
                    <= 0x10000 by {
                    assert(layer@.contains(layer@[a]));
                    assert(common::in_orbit(layer@[a] as int, e as int, q - 1));
                    let kk = choose|kk: nat|
                        layer@[a] as int == #[trigger] common::orbit_elem(e as int, kk, q - 1);
                    if kk == 0 {
                        assert(layer@[a] == e);
                    } else {
                        assert(common::orbit_elem(e as int, kk, q - 1) == (2 * common::orbit_elem(
                            e as int,
                            (kk - 1) as nat,
                            q - 1,
                        )) % (q - 1));
                        vstd::arithmetic::div_mod::lemma_mod_division_less_than_divisor(
                            2 * common::orbit_elem(e as int, (kk - 1) as nat, q - 1),
                            q - 1,
                        );
                    }
                }
                assert forall|a: int, b: int| 0 <= a < b < layer@.len() implies layer@[a]
                    != layer@[b] by {}
                common::lemma_distinct_bounded(layer@, 0x10001);
            }
            let mp = common::calculate_layer_min_pol(layer, &self.adding_table);
            proof {
                assert(common::in_orbit(e as int, e as int, q - 1)) by {
                    assert(common::orbit_elem(e as int, 0, q - 1) == e as int);
                }
                assert(layer@.contains(e));
                assert(common::is_orbit_of(layer@, e as int, q1i));
                assert(mp@ == common::spec_min_pol(layer@, q1i, self.view_table()));
                assert(mp@[0]);
                assert(spec_minpol_for(mp@, e as int, count as int, q1i, self.view_table()));
            }
            min_pols.push(mp);
            e = e + 1;
        }
        min_pols
    }

    /// The residues of the received word under the minimal polynomials of
    /// the first `2t` cosets; the polynomials themselves ride along as a
    /// ghost value.
    fn compute_syndroms(&self, encoded: &BitVec) -> (r: (Vec<BitVec>, Ghost<Seq<Seq<bool>>>))
        requires
            self.wf(),
            encoded@.len() <= MAX_BITS,
        ensures
            spec_minpols_ok(r.1@, 2 * self.view_t(), self.view_q1(), self.view_table()),
            r.0@.len() == r.1@.len(),
            forall|i: int|
                0 <= i < r.1@.len() ==> spec_remainder(encoded@, r.1@[i]) is Ok
                    && #[trigger] crate::bits::bits_of(r.0@[i]) == spec_remainder(
                    encoded@,
                    r.1@[i],
                )->Ok_0,
            forall|i: int|
                0 <= i < r.0@.len() ==> #[trigger] crate::bits::bits_of(r.0@[i]).len() <= 0x20000,
    {
        let min_pols = self.get_first_n_min_pols(2 * (self.t as u32));
        let ghost mpols = crate::bitvec_operations::views_of(min_pols@);
        let mut syndroms: Vec<BitVec> = Vec::new();
        let mut i: usize = 0;
        while i < min_pols.len()
            invariant
                i <= min_pols@.len(),
                encoded@.len() <= MAX_BITS,
                mpols == crate::bitvec_operations::views_of(min_pols@),
                spec_minpols_ok(mpols, min_pols@.len() as int, self.view_q1(), self.view_table()),
                forall|a: int|
                    0 <= a < min_pols@.len() ==> 1 <= #[trigger] crate::bits::bits_of(
                        min_pols@[a],
                    ).len() <= 0x20000 && crate::bits::bits_of(min_pols@[a])[0],
                syndroms@.len() == i,
                forall|a: int|
                    0 <= a < i ==> spec_remainder(encoded@, mpols[a]) is Ok
                        && #[trigger] crate::bits::bits_of(syndroms@[a]) == spec_remainder(
                        encoded@,
                        mpols[a],
                    )->Ok_0,
                forall|a: int|
                    0 <= a < i ==> #[trigger] crate::bits::bits_of(syndroms@[a]).len() <= 0x20000,
            decreases min_pols@.len() - i,
        {
            proof {
                assert(mpols[i as int] == crate::bits::bits_of(min_pols@[i as int]));
            }
            proof {
                crate::poly::lemma_strip_coeff(mpols[i as int]);
            }
            let rem = match remainder_divide(encoded, &min_pols[i]) {
                Ok(x) => x,
                Err(_) => {
                    proof {
                        assert(mpols[i as int][0]);
                        assert(crate::poly::strip(mpols[i as int]) == mpols[i as int]);
                        assert(false);
                    }
                    return (Vec::new(), Ghost(mpols));
                },
            };
            syndroms.push(rem);
            i = i + 1;
        }
        (syndroms, Ghost(mpols))
    }

    /// The syndrome logarithms; see `spec_syn_log`.
    pub fn get_syndroms_alphas(&self, syndroms: &Vec<BitVec>) -> (r: Vec<i32>)
        requires
            self.wf(),
            syndroms@.len() <= 0x1000,
            forall|i: int|
                0 <= i < syndroms@.len() ==> #[trigger] crate::bits::bits_of(syndroms@[i]).len()
                    <= MAX_BITS,
        ensures
            r@.len() == syndroms@.len(),
            forall|i: int|
                0 <= i < r@.len() ==> #[trigger] r@[i] as int == spec_syn_log(
                    crate::bits::bits_of(syndroms@[i]),
                    i + 1,
                    self.view_q1(),
                    self.view_table(),
                    crate::bits::bits_of(syndroms@[i]).len() as int,
                ),
            forall|i: int| 0 <= i < r@.len() ==> -1 <= #[trigger] r@[i] <= self.view_q1(),
    {
        proof {
            self.table_facts();
        }
        let ghost q1i = self.view_q1();
        let q1 = self.adding_table.len() - 1;
        let mut result: Vec<i32> = Vec::new();
        let mut i: usize = 0;
        while i < syndroms.len()
            invariant
                i <= syndroms@.len(),
                self.wf(),
                q1i == self.view_q1(),
                q1 == q1i,
                1 <= q1 <= 0xFFFF,
                syndroms@.len() <= 0x1000,
                forall|a: int|
                    0 <= a < syndroms@.len() ==> #[trigger] crate::bits::bits_of(
                        syndroms@[a],
                    ).len() <= MAX_BITS,
                result@.len() == i,
                forall|a: int|
                    0 <= a < i ==> #[trigger] result@[a] as int == spec_syn_log(
                        crate::bits::bits_of(syndroms@[a]),
                        a + 1,
                        q1i,
                        self.view_table(),
                        crate::bits::bits_of(syndroms@[a]).len() as int,
                    ),
                forall|a: int| 0 <= a < i ==> -1 <= #[trigger] result@[a] <= q1i,
            decreases syndroms@.len() - i,
        {
            let s = &syndroms[i];
            let ghost sv = crate::bits::bits_of(syndroms@[i as int]);
            let len = s.len();
            let mut acc: i32 = -1;
            let mut j: usize = 0;
            while j < len
                invariant
                    j <= len,
                    self.wf(),
                    q1i == self.view_q1(),
                    q1 == q1i,
                    1 <= q1 <= 0xFFFF,
                    i < syndroms@.len() <= 0x1000,
                    sv == crate::bits::bits_of(syndroms@[i as int]),
                    s@ == sv,
                    len == sv.len(),
                    len <= MAX_BITS,
                    -1 <= acc <= q1,
                    acc as int == spec_syn_log(sv, i + 1, q1i, self.view_table(), j as int),
                decreases len - j,
            {
                let bit = s.get_bit(len - 1 - j);
                proof {
                    assert(coeff(sv, j as int) == sv[len - 1 - j]);
                }
                if bit {
                    proof {
                        assert(((i + 1) as int) * (j as int) <= 0x1000 * 0x0800_0000)
                            by (nonlinear_arith)
                            requires
                                0 <= i + 1 <= 0x1000,
                                0 <= j <= 0x0800_0000,
                        ;
                    }
                    let jm = (((i + 1) as u64) * (j as u64)) % (q1 as u64);
                    proof {
                        vstd::arithmetic::div_mod::lemma_mod_division_less_than_divisor(
                            ((i + 1) as u64 * (j as u64)) as int,
                            q1 as int,
                        );
                        assert(jm as int == ((i + 1) * j) % q1i);
                    }
                    acc = self.add_alphas(acc, jm as i32);
                }
                j = j + 1;
            }
            result.push(acc);
            i = i + 1;
        }
        result
    }

    /// The two seed rows of the iteration: the half-step row and the
    /// start row with the first syndrome as its discrepancy.
    fn init_table(&self, s1: i32) -> (r: (Vec<Vec<i32>>, Vec<i32>, Vec<i32>, Vec<i32>))
        ensures
            r.0@.len() == 2 && r.0@[0]@ == seq![0i32] && r.0@[1]@ == seq![0i32],
            r.1@ == seq![0i32, s1],
            r.2@ == seq![0i32, 0i32],
            r.3@ == seq![-1i32, 0i32],
    {
        let mut sigmas: Vec<Vec<i32>> = Vec::new();
        let mut row0: Vec<i32> = Vec::new();
        row0.push(0);
        let mut row1: Vec<i32> = Vec::new();
        row1.push(0);
        proof {
            assert(row0@ =~= seq![0i32]);
            assert(row1@ =~= seq![0i32]);
        }
        sigmas.push(row0);
        sigmas.push(row1);
        let mut dus: Vec<i32> = Vec::new();
        dus.push(0);
        dus.push(s1);
        let mut lus: Vec<i32> = Vec::new();
        lus.push(0);
        lus.push(0);
        let mut dulus: Vec<i32> = Vec::new();
        dulus.push(-1);
        dulus.push(0);
        proof {
            assert(dus@ =~= seq![0i32, s1]);
            assert(lus@ =~= seq![0i32, 0i32]);
            assert(dulus@ =~= seq![-1i32, 0i32]);
        }
        (sigmas, dus, lus, dulus)
    }

    /// Picks the earlier row with the most advanced step count among
    /// those with a non-zero discrepancy; see `spec_find_rho`.
    fn find_dulu_idx(&self, dus: &Vec<i32>, dulus: &Vec<i32>, upto: usize) -> (r: usize)
        requires
            1 <= upto <= dus@.len(),
            upto <= dulus@.len(),
            dus@[0] != -1,
        ensures
            r == spec_find_rho(logs_of(dus@), dulus@.map_values(|x: i32| x as int), upto as int),
            r < upto,
            dus@[r as int] != -1,
    {
        let ghost dusv = logs_of(dus@);
        let ghost dulusv = dulus@.map_values(|x: i32| x as int);
        let mut best: usize = 0;
        let mut i: usize = 1;
        while i < upto
            invariant
                1 <= i <= upto <= dus@.len(),
                upto <= dulus@.len(),
                dusv == logs_of(dus@),
                dulusv == dulus@.map_values(|x: i32| x as int),
                best < i,
                best == spec_find_rho(dusv, dulusv, i as int),
                dus@[0] != -1,
                dus@[best as int] != -1,
            decreases upto - i,
        {
            proof {
                assert(dusv[i as int] == dus@[i as int] as int);
                assert(dulusv[i as int] == dulus@[i as int] as int);
                assert(dusv[best as int] == dus@[best as int] as int);
                assert(dulusv[best as int] == dulus@[best as int] as int);
            }
            if dus[i] != -1 && (dus[best] == -1 || dulus[i] >= dulus[best]) {
                best = i;
            }
            i = i + 1;
        }
        best
    }

    /// Copies a log-form coefficient vector.
    fn clone_logs(v: &Vec<i32>) -> (r: Vec<i32>)
        ensures
            r@ == v@,
    {
        let mut r: Vec<i32> = Vec::new();
        let mut i: usize = 0;
        while i < v.len()
            invariant
                i <= v@.len(),
                r@ == v@.subrange(0, i as int),
            decreases v@.len() - i,
        {
            r.push(v[i]);
            i = i + 1;
            proof {
                assert(r@ =~= v@.subrange(0, i as int));
            }
        }
        proof {
            assert(v@.subrange(0, v@.len() as int) =~= v@);
        }
        r
    }

    /// Decodes a received word of at most `n` bits: computes the syndrome
    /// logarithms, runs the key-equation iteration to the error locator of
    /// step `t`, locates its roots, flips those positions, and splits the
    /// corrected word into message and parity; see `spec_bk_decode`.
    #[verifier::loop_isolation(false)]
    #[verifier::rlimit(100)]
    #[verifier::spinoff_prover]
    pub fn decode(self, encoded: &BitVec) -> (res: Result<(BitVec, BitVec), BchError>)
        requires
            self.wf(),
        ensures
            encoded@.len() > self.view_n() ==> res == Result::<(BitVec, BitVec), BchError>::Err(
                BchError::InputTooLong,
            ),
            encoded@.len() <= self.view_n() ==> (exists|mpols: Seq<Seq<bool>>|
                #[trigger] spec_minpols_ok(
                    mpols,
                    2 * self.view_t(),
                    self.view_q1(),
                    self.view_table(),
                ) && spec_result_matches(
                    res,
                    spec_bk_decode(
                        encoded@,
                        mpols,
                        self.view_n(),
                        self.view_k(),
                        self.view_t(),
                        self.view_q1(),
                        self.view_table(),
                    ),
                )),
    {
        proof {
            self.table_facts();
        }
        let encoded_len = encoded.len();
        if encoded_len > (self.n as usize) {
            return Err(BchError::InputTooLong);
        }
        let ghost q1i = self.view_q1();
        let ghost tv = self.view_table();
        let ghost ti = self.t as int;
        let q1 = self.adding_table.len() - 1;
        let (syndroms, ghost_mpols) = self.compute_syndroms(encoded);
        let ghost mpols = ghost_mpols@;
        let syndroms_alphas = self.get_syndroms_alphas(&syndroms);
        let ghost synv = logs_of(syndroms_alphas@);
        proof {
            assert(synv =~= spec_syndromes(encoded@, mpols, q1i, tv)) by {
                assert forall|i: int| 0 <= i < synv.len() implies synv[i] == spec_syndromes(
                    encoded@,
                    mpols,
                    q1i,
                    tv,
                )[i] by {
                    assert(synv[i] == syndroms_alphas@[i] as int);
                    assert(crate::bits::bits_of(syndroms@[i]) == spec_remainder(
                        encoded@,
                        mpols[i],
                    )->Ok_0);
                }
            }
        }
        let s1 = if syndroms_alphas.len() > 0 {
            syndroms_alphas[0]
        } else {
            -1
        };
        let (mut sigmas, mut dus, mut lus, mut dulus) = self.init_table(s1);
        proof {
            let st = spec_bk_rows(synv, ti, q1i, tv, 1);
            assert(logs2_of(sigmas@) =~= st.0) by {
                assert(logs_of(sigmas@[0]@) =~= seq![0int]);
                assert(logs_of(sigmas@[1]@) =~= seq![0int]);
            }
            assert(logs_of(dus@) =~= st.1);
            assert(logs_of(lus@) =~= st.2);
            assert(logs_of(dulus@) =~= st.3);
        }
        let tt = self.t as usize;
        let mut u_idx: usize = 1;
        while u_idx <= tt
            invariant
                1 <= u_idx <= tt + 1,
                self.wf(),
                tt == ti,
                0 <= ti,
                2 * ti < 0x1000,
                q1 == q1i,
                1 <= q1 <= 0xFFFF,
                tv == self.view_table(),
                q1i == self.view_q1(),
                synv == logs_of(syndroms_alphas@),
                synv.len() == 2 * ti,
                syndroms_alphas@.len() == 2 * ti,
                forall|a: int| 0 <= a < synv.len() ==> -1 <= #[trigger] synv[a] <= q1i,
                sigmas@.len() == u_idx + 1,
                dus@.len() == u_idx + 1,
                lus@.len() == u_idx + 1,
                dulus@.len() == u_idx + 1,
                dus@[0] == 0,
                logs2_of(sigmas@) == spec_bk_rows(synv, ti, q1i, tv, u_idx as int).0,
                logs_of(dus@) == spec_bk_rows(synv, ti, q1i, tv, u_idx as int).1,
                logs_of(lus@) == spec_bk_rows(synv, ti, q1i, tv, u_idx as int).2,
                logs_of(dulus@) == spec_bk_rows(synv, ti, q1i, tv, u_idx as int).3,
                forall|r: int|
                    0 <= r < sigmas@.len() ==> logs_in_range(
                        logs_of(#[trigger] sigmas@[r]@),
                        q1i,
                    ) && 1 <= sigmas@[r]@.len() && sigmas@[r]@.len() <= 1 + 2 * ti * r,
                forall|r: int| 0 <= r < dus@.len() ==> -1 <= #[trigger] dus@[r] <= q1,
            decreases tt - u_idx + 1,
        {
            let ghost st = spec_bk_rows(synv, ti, q1i, tv, u_idx as int);
            let du = dus[u_idx];
            proof {
                assert(logs_of(dus@)[u_idx as int] == dus@[u_idx as int] as int);
                assert(st.1[u_idx as int] == du as int);
                assert(2 * ti * (u_idx as int) <= 2 * ti * ti) by (nonlinear_arith)
                    requires
                        0 <= ti,
                        u_idx as int <= ti,
                ;
                assert(2 * ti * ti < 0x0400_0000) by (nonlinear_arith)
                    requires
                        0 <= ti < 0x800,
                ;
            }
            let next_sigma: Vec<i32> = if du == -1 {
                Self::clone_logs(&sigmas[u_idx])
            } else {
                let rho = self.find_dulu_idx(&dus, &dulus, u_idx);
                proof {
                    assert(logs_of(dus@)[rho as int] == dus@[rho as int] as int);
                    assert(dulus@.map_values(|x: i32| x as int) == logs_of(dulus@));
                    assert(spec_find_rho(st.1, st.3, u_idx as int) == rho);
                }
                let x_power: usize = if rho == 0 {
                    2 * u_idx - 1
                } else {
                    2 * (u_idx - rho)
                };
                let x_alpha = self.sub_mod(du, dus[rho], q1 as i32);
                proof {
                    assert(sigmas@[rho as int]@.len() <= 1 + 2 * ti * (rho as int));
                    assert(2 * ti * (rho as int) <= 2 * ti * (u_idx as int)) by (nonlinear_arith)
                        requires
                            0 <= ti,
                            0 <= rho as int <= u_idx as int,
                    ;
                }
                let xp_sigma = self.multiply_sigma_by_alpha_with_x(
                    &sigmas[rho],
                    x_power as i32,
                    x_alpha,
                );
                self.add_to_sigma(Self::clone_logs(&sigmas[u_idx]), xp_sigma)
            };
            proof {
                assert(logs_of(next_sigma@) == spec_bk_next_sigma(
                    st.0,
                    st.1,
                    st.3,
                    u_idx as int,
                    q1i,
                    tv,
                )) by {
                    assert(st.0[u_idx as int] == logs_of(sigmas@[u_idx as int]@));
                    if du != -1 {
                        let rho = spec_find_rho(st.1, st.3, u_idx as int);
                        assert(st.0[rho] == logs_of(sigmas@[rho]@));
                    }
                }
                assert(1 <= next_sigma@.len());
                assert(next_sigma@.len() <= 1 + 2 * ti * (u_idx as int + 1)) by {
                    if du != -1 {
                        let rho = spec_find_rho(st.1, st.3, u_idx as int);
                        assert(2 * ti * (rho as int) + 2 * (u_idx as int) <= 2 * ti * (u_idx as int
                            + 1)) by (nonlinear_arith)
                            requires
                                0 <= rho < u_idx as int <= ti,
                        ;
                        assert(2 * ti * (u_idx as int) <= 2 * ti * (u_idx as int + 1))
                            by (nonlinear_arith)
                            requires
                                0 <= ti,
                                1 <= u_idx as int,
                        ;
                    } else {
                        assert(2 * ti * (u_idx as int) <= 2 * ti * (u_idx as int + 1))
                            by (nonlinear_arith)
                            requires
                                0 <= ti,
                                1 <= u_idx as int,
                        ;
                    }
                }
            }
            let next_lu = (next_sigma.len() - 1) as i32;
            let next_dulu = 2 * (u_idx as i32) - next_lu;
            let next_du: i32 = if u_idx < tt {
                let mut acc: i32 = syndroms_alphas[2 * u_idx];
                let slen = next_sigma.len();
                proof {
                    assert(logs_of(next_sigma@).len() == slen);
                    assert(spec_bk_disc_fold(logs_of(next_sigma@), synv, u_idx as int, q1i, tv, 0)
                        == acc as int);
                }
                let mut ii: usize = 1;
                while ii < slen
                    invariant
                        1 <= ii <= slen,
                        slen == next_sigma@.len(),
                        self.wf(),
                        q1 == q1i,
                        1 <= q1 <= 0xFFFF,
                        tv == self.view_table(),
                        q1i == self.view_q1(),
                        synv == logs_of(syndroms_alphas@),
                        syndroms_alphas@.len() == synv.len(),
                        forall|a: int| 0 <= a < synv.len() ==> -1 <= #[trigger] synv[a] <= q1i,
                        logs_in_range(logs_of(next_sigma@), q1i),
                        1 <= u_idx,
                        2 * u_idx < synv.len(),
                        -1 <= acc <= q1,
                        acc as int == spec_bk_disc_fold(
                            logs_of(next_sigma@),
                            synv,
                            u_idx as int,
                            q1i,
                            tv,
                            ii - 1,
                        ),
                    decreases slen - ii,
                {
                    let si = next_sigma[slen - 1 - ii];
                    proof {
                        assert(logs_of(next_sigma@)[slen - 1 - ii] == si as int);
                    }
                    let sy: i32 = if 2 * u_idx >= ii {
                        proof {
                            assert(synv[2 * (u_idx as int) - ii] == syndroms_alphas@[2 * (
                            u_idx as int) - ii] as int);
                        }
                        syndroms_alphas[2 * u_idx - ii]
                    } else {
                        -1
                    };
                    if si != -1 && sy != -1 {
                        let term = self.alpha_mod_n(si + sy);
                        acc = self.add_alphas(acc, term);
                    }
                    ii = ii + 1;
                }
                proof {
                    assert(acc as int == spec_bk_disc(
                        logs_of(next_sigma@),
                        synv,
                        u_idx as int,
                        q1i,
                        tv,
                    ));
                }
                acc
            } else {
                -1
            };
            let ghost old_sigmas = sigmas@;
            let ghost old_dus = dus@;
            let ghost old_lus = lus@;
            let ghost old_dulus = dulus@;
            sigmas.push(next_sigma);
            dus.push(next_du);
            lus.push(next_lu);
            dulus.push(next_dulu);
            u_idx = u_idx + 1;
            proof {
                let st2 = spec_bk_rows(synv, ti, q1i, tv, u_idx as int);
                assert(logs2_of(sigmas@) =~= st2.0);
                assert(logs_of(dus@) =~= st2.1);
                assert(logs_of(lus@) =~= st2.2);
                assert(logs_of(dulus@) =~= st2.3);
                assert forall|r: int|
                    0 <= r < sigmas@.len() implies logs_in_range(
                    logs_of(#[trigger] sigmas@[r]@),
                    q1i,
                ) && 1 <= sigmas@[r]@.len() && sigmas@[r]@.len() <= 1 + 2 * ti * r by {
                    if r < old_sigmas.len() {
                        assert(sigmas@[r] == old_sigmas[r]);
                    }
                }
            }
        }
        let ghost sigmav = spec_bk_sigma(synv, ti, q1i, tv);
        let last_idx = sigmas.len() - 1;
        let sigma = &sigmas[last_idx];
        proof {
            assert(logs2_of(sigmas@)[last_idx as int] == logs_of(sigmas@[last_idx as int]@));
            assert(logs_of(sigma@) == sigmav);
        }
        let slen = sigma.len();
        proof {
            assert(sigmas@[last_idx as int]@.len() <= 1 + 2 * ti * (last_idx as int));
            assert(2 * ti * (last_idx as int) <= 0x0400_0000) by (nonlinear_arith)
                requires
                    0 <= ti < 0x800,
                    0 <= last_idx as int <= ti + 1,
            ;
        }
        // Chien search: find the exponents where the locator vanishes.
        let mut roots: Vec<usize> = Vec::new();
        let nn = self.n as usize;
        let mut j: usize = 0;
        while j < nn
            invariant
                j <= nn,
                nn == self.view_n(),
                nn < MAX_BITS,
                self.wf(),
                q1 == q1i,
                1 <= q1 <= 0xFFFF,
                tv == self.view_table(),
                q1i == self.view_q1(),
                sigma@ == sigmas@[last_idx as int]@,
                logs_of(sigma@) == sigmav,
                slen == sigma@.len(),
                1 <= slen <= 0x0400_0001,
                logs_in_range(sigmav, q1i),
                roots@.map_values(|x: usize| x as int) == spec_roots_upto(sigmav, q1i, tv, j as int),
                forall|a: int| 0 <= a < roots@.len() ==> #[trigger] roots@[a] < j,
                forall|a: int, b: int| 0 <= a < b < roots@.len() ==> roots@[a] < roots@[b],
            decreases nn - j,
        {
            let mut acc: i32 = -1;
            let mut p: usize = 0;
            while p < slen
                invariant
                    p <= slen,
                    self.wf(),
                    q1 == q1i,
                    1 <= q1 <= 0xFFFF,
                    tv == self.view_table(),
                    q1i == self.view_q1(),
                    sigma@ == sigmas@[last_idx as int]@,
                    logs_of(sigma@) == sigmav,
                    slen == sigma@.len(),
                    1 <= slen <= 0x0400_0001,
                    j < nn < MAX_BITS,
                    logs_in_range(sigmav, q1i),
                    -1 <= acc <= q1,
                    acc as int == spec_eval_fold(sigmav, j as int, q1i, tv, p as int),
                decreases slen - p,
            {
                let sp = sigma[slen - 1 - p];
                proof {
                    assert(sigmav[slen - 1 - p] == sp as int);
                }
                if sp != -1 {
                    proof {
                        assert((j as int) * (p as int) <= 0x0800_0000 * 0x0400_0001)
                            by (nonlinear_arith)
                            requires
                                0 <= j <= 0x0800_0000,
                                0 <= p <= 0x0400_0001,
                        ;
                        vstd::arithmetic::div_mod::lemma_mod_division_less_than_divisor(
                            ((j as u64) * (p as u64)) as int,
                            q1 as int,
                        );
                    }
                    let jp = ((j as u64) * (p as u64)) % (q1 as u64);
                    let term = self.sub_mod(sp, jp as i32, q1 as i32);
                    proof {
                        vstd::arithmetic::div_mod::lemma_sub_mod_noop_right(
                            sp as int,
                            (j as int) * (p as int),
                            q1i,
                        );
                        assert(term as int == (sp - (j as int) * (p as int)) % q1i);
                    }
                    acc = self.add_alphas(acc, term);
                }
                p = p + 1;
            }
            proof {
                assert(acc as int == spec_eval_fold(sigmav, j as int, q1i, tv, slen as int));
            }
            if acc == -1 {
                let ghost old_roots = roots@;
                roots.push(j);
                proof {
                    assert(roots@.map_values(|x: usize| x as int) =~= spec_roots_upto(
                        sigmav,
                        q1i,
                        tv,
                        j + 1,
                    ));
                }
            }
            j = j + 1;
        }
        let ghost rootsv = spec_roots_upto(sigmav, q1i, tv, self.view_n());
        proof {
            assert(roots@.map_values(|x: usize| x as int) == rootsv);
            assert(roots@.len() == rootsv.len());
        }
        if roots.len() != slen - 1 {
            proof {
                assert(spec_bk_correct(encoded@, sigmav, self.view_n(), self.view_k(), q1i, tv)
                    == Result::<(Seq<bool>, Seq<bool>), BchError>::Err(BchError::DecodeFailure));
                let sd = spec_bk_decode(encoded@, mpols, self.view_n(), self.view_k(), ti, q1i, tv);
                assert(sd == spec_bk_correct(encoded@, sigmav, self.view_n(), self.view_k(), q1i, tv));
                assert(spec_minpols_ok(mpols, 2 * self.view_t(), q1i, tv) && spec_result_matches(
                    Result::<(BitVec, BitVec), BchError>::Err(BchError::DecodeFailure),
                    sd,
                ));
            }
            return Err(BchError::DecodeFailure);
        }
        // Every root must point into the received word.
        let mut ri: usize = 0;
        while ri < roots.len()
            invariant
                ri <= roots@.len(),
                encoded_len == encoded@.len(),
                rootsv == roots@.map_values(|x: usize| x as int),
                forall|a: int| 0 <= a < ri ==> #[trigger] roots@[a] < encoded_len,
            decreases roots@.len() - ri,
        {
            if roots[ri] >= encoded_len {
                proof {
                    assert(rootsv[ri as int] == roots@[ri as int] as int);
                    assert(rootsv[ri as int] >= encoded@.len());
                    assert(spec_bk_correct(encoded@, sigmav, self.view_n(), self.view_k(), q1i, tv)
                        == Result::<(Seq<bool>, Seq<bool>), BchError>::Err(
                        BchError::DecodeFailure,
                    ));
                    let sd = spec_bk_decode(
                        encoded@,
                        mpols,
                        self.view_n(),
                        self.view_k(),
                        ti,
                        q1i,
                        tv,
                    );
                    assert(spec_minpols_ok(mpols, 2 * self.view_t(), q1i, tv)
                        && spec_result_matches(
                        Result::<(BitVec, BitVec), BchError>::Err(BchError::DecodeFailure),
                        sd,
                    ));
                }
                return Err(BchError::DecodeFailure);
            }
            ri = ri + 1;
        }
        proof {
            assert forall|a: int| 0 <= a < rootsv.len() implies #[trigger] rootsv[a]
                < encoded@.len() by {
                assert(rootsv[a] == roots@[a] as int);
            }
        }
        // Flip the located error positions.
        let mut corrected = encoded.clone_bits();
        let ghost target = Seq::new(
            encoded@.len(),
            |idx: int|
                if rootsv.contains(encoded@.len() - 1 - idx) {
                    !encoded@[idx]
                } else {
                    encoded@[idx]
                },
        );
        let mut fi: usize = 0;
        while fi < roots.len()
            invariant
                fi <= roots@.len(),
                encoded_len == encoded@.len(),
                rootsv == roots@.map_values(|x: usize| x as int),
                forall|a: int| 0 <= a < roots@.len() ==> #[trigger] roots@[a] < encoded_len,
                forall|a: int, b: int| 0 <= a < b < roots@.len() ==> roots@[a] < roots@[b],
                corrected@.len() == encoded@.len(),
                forall|idx: int|
                    0 <= idx < encoded@.len() ==> #[trigger] corrected@[idx] == (
                    if rootsv.subrange(0, fi as int).contains(encoded@.len() - 1 - idx) {
                        !encoded@[idx]
                    } else {
                        encoded@[idx]
                    }),
            decreases roots@.len() - fi,
        {
            let root = roots[fi];
            let ghost pre = corrected@;
            corrected.invert_bit(encoded_len - 1 - root);
            fi = fi + 1;
            proof {
                let sub = rootsv.subrange(0, fi as int);
                assert(sub.drop_last() =~= rootsv.subrange(0, fi - 1));
                assert forall|idx: int|
                    0 <= idx < encoded@.len() implies #[trigger] corrected@[idx] == (
                if sub.contains(encoded@.len() - 1 - idx) {
                    !encoded@[idx]
                } else {
                    encoded@[idx]
                }) by {
                    let rv = encoded@.len() - 1 - idx;
                    if idx == encoded_len - 1 - root {
                        assert(rv == root as int);
                        assert(sub[fi - 1] == root as int);
                        assert(sub.contains(rv));
                        // This root was not flipped before: roots ascend.
                        assert(!rootsv.subrange(0, fi - 1).contains(rv)) by {
                            if rootsv.subrange(0, fi - 1).contains(rv) {
                                let a = choose|a: int|
                                    0 <= a < fi - 1 && #[trigger] rootsv.subrange(0, fi - 1)[a]
                                        == rv;
                                assert(roots@[a] < roots@[fi - 1]);
                            }
                        }
                        assert(pre[idx] == encoded@[idx]);
                    } else {
                        assert(corrected@[idx] == pre[idx]);
                        assert forall|c: int| sub.contains(c) && c != root as int implies rootsv
                            .subrange(0, fi - 1).contains(c) by {
                            let a = choose|a: int| 0 <= a < fi && #[trigger] sub[a] == c;
                            assert(a < fi - 1 || sub[a] == root as int);
                            assert(rootsv.subrange(0, fi - 1)[a] == c);
                        }
                        if rootsv.subrange(0, fi - 1).contains(rv) {
                            let a = choose|a: int|
                                0 <= a < fi - 1 && #[trigger] rootsv.subrange(0, fi - 1)[a] == rv;
                            assert(sub[a] == rv);
                            assert(sub.contains(rv));
                        }
                    }
                }
            }
        }
        proof {
            assert(rootsv.subrange(0, rootsv.len() as int) =~= rootsv);
            assert(corrected@ =~= target);
        }
        let kk = if (self.k as usize) <= encoded_len {
            self.k as usize
        } else {
            encoded_len
        };
        let decoded = copy_range(&corrected, 0, kk);
        let rest = copy_range(&corrected, kk, encoded_len);
        proof {
            let sr = spec_bk_correct(encoded@, sigmav, self.view_n(), self.view_k(), q1i, tv);
            assert(sr is Ok);
            assert(decoded@ == sr->Ok_0.0);
            assert(rest@ == sr->Ok_0.1);
            let sd = spec_bk_decode(encoded@, mpols, self.view_n(), self.view_k(), ti, q1i, tv);
            assert(sd == sr);
        }
        let res = Ok((decoded, rest));
        proof {
            assert(spec_minpols_ok(mpols, 2 * self.view_t(), q1i, tv) && spec_result_matches(
                res,
                spec_bk_decode(encoded@, mpols, self.view_n(), self.view_k(), ti, q1i, tv),
            ));
        }
        res
    }
}

impl Decoder for BerlekampDecoder {
    /// Checks that the instance is consistent, then runs the inherent
    /// `decode`; an inconsistent instance is reported as undecodable.
    fn decode(self, encoded: &BitVec) -> Result<(BitVec, BitVec), BchError> {
        if self.k < 0 || self.n < self.k || self.t < 0 || self.t >= 0x800 {
            return Err(BchError::DecodeFailure);
        }
        if (self.n as usize) >= MAX_BITS {
            return Err(BchError::DecodeFailure);
        }
        let glen = self.gen_poly.len();
        if glen == 0 || !self.gen_poly.get_bit(0) {
            return Err(BchError::DecodeFailure);
        }
        let diff: i64 = (self.n as i64) - (self.k as i64) + 1;
        if (diff as u64) != (glen as u64) {
            return Err(BchError::DecodeFailure);
        }
        let tlen = self.adding_table.len();
        if tlen < 2 || tlen > 0x10000 {
            return Err(BchError::DecodeFailure);
        }
        let mut r: usize = 0;
        while r < tlen
            invariant
                r <= tlen,
                tlen == self.adding_table@.len(),
                2 <= tlen <= 0x10000,
                forall|i: int| 0 <= i < r ==> #[trigger] self.adding_table@[i]@.len() == tlen,
                forall|i: int, j: int|
                    0 <= i < r && 0 <= j < tlen ==> -1 <= #[trigger] self.adding_table@[i]@[j]
                        < tlen,
            decreases tlen - r,
        {
            let row = &self.adding_table[r];
            if row.len() != tlen {
                return Err(BchError::DecodeFailure);
            }
            let mut c: usize = 0;
            while c < tlen
                invariant
                    c <= tlen,
                    tlen == self.adding_table@.len(),
                    2 <= tlen <= 0x10000,
                    row@ == self.adding_table@[r as int]@,
                    row@.len() == tlen,
                    r < tlen,
                    forall|j: int| 0 <= j < c ==> -1 <= #[trigger] row@[j] < tlen,
                decreases tlen - c,
            {
                let v = row[c];
                if v < -1 || (v as i64) >= (tlen as i64) {
                    return Err(BchError::DecodeFailure);
                }
                c = c + 1;
            }
            proof {
                assert forall|j: int|
                    0 <= j < tlen implies -1 <= #[trigger] self.adding_table@[r as int]@[j]
                    < tlen by {
                    assert(row@[j] == self.adding_table@[r as int]@[j]);
                }
            }
            r = r + 1;
        }
        proof {
            assert forall|i: int|
                0 <= i < self.view_table().len() implies (#[trigger] self.view_table()[i]).len()
                == self.view_table().len() by {
                assert(self.view_table()[i] == self.adding_table@[i]@);
            }
            assert forall|i: int, j: int|
                0 <= i < self.view_table().len() && 0 <= j < self.view_table().len() implies -1
                <= #[trigger] self.view_table()[i][j] < self.view_table().len() by {
                assert(self.view_table()[i] == self.adding_table@[i]@);
            }
        }
        BerlekampDecoder::decode(self, encoded)
    }
}

} // verus!
