//! Construction of the GF(2^m) machinery: the table of powers of the
//! primitive element, the addition table over logarithms, cyclotomic
//! cosets, minimal polynomials, and the generator polynomial.

use vstd::prelude::*;
use itertools::Itertools;
use crate::bits::BitVec;
use crate::bits::MAX_BITS;
use crate::bits::bits_of;
use crate::bitvec_operations::views_of;
use crate::bitvec_operations::xor_in_place;
use crate::poly::div_step;
use crate::poly::shift_in;
use crate::poly::sxor;
use crate::BchError;

verus! {

/// 2 to the power `m`.
pub open spec fn two_pow(m: nat) -> nat
    decreases m,
{
    if m == 0 {
        1
    } else {
        2 * two_pow((m - 1) as nat)
    }
}

pub proof fn lemma_two_pow_mono(a: nat, b: nat)
    requires
        a <= b,
    ensures
        two_pow(a) <= two_pow(b),
    decreases b,
{
    if a < b {
        lemma_two_pow_mono(a, (b - 1) as nat);
    }
}

/// The unit element of GF(2^m) in dense form: only the constant term set.
pub open spec fn spec_alpha0(p: Seq<bool>) -> Seq<bool> {
    Seq::new(p.len(), |i: int| i == p.len() - 1)
}

/// The first `count` powers of the primitive element in dense form:
/// each power is the previous one shifted up and reduced modulo `p` when
/// its high coordinate overflows.
pub open spec fn spec_alphas(p: Seq<bool>, count: nat) -> Seq<Seq<bool>>
    decreases count,
{
    if count == 0 {
        Seq::empty()
    } else if count == 1 {
        seq![spec_alpha0(p)]
    } else {
        let prev = spec_alphas(p, (count - 1) as nat);
        prev.push(div_step(prev.last(), p, false))
    }
}

/// Index of the first entry of `vs` equal to `x` at or after `from`, or
/// -1 when there is none.
pub open spec fn first_match(vs: Seq<Seq<bool>>, x: Seq<bool>, from: int) -> int
    decreases vs.len() - from,
{
    if from < 0 || from >= vs.len() {
        -1
    } else if vs[from] == x {
        from
    } else {
        first_match(vs, x, from + 1)
    }
}

/// Relies on `rand::random_range`: a number drawn uniformly below
/// `modulo`.  `random_range` panics only on an empty range, which the
/// precondition rules out.
#[verifier::external_body]
fn random_below(modulo: i32) -> (r: usize)
    requires
        modulo > 0,
    ensures
        r < modulo,
{
    rand::random_range(0..(modulo as usize))
}

/// Draws `n` pairwise distinct positions below `modulo`, by picking
/// without replacement from the positions that are still unused.
pub fn get_random_places(n: i32, modulo: i32) -> (r: Vec<usize>)
    requires
        0 <= n,
        n > 0 ==> n <= modulo,
    ensures
        r@.len() == n,
        forall|i: int| 0 <= i < r@.len() ==> r@[i] < modulo,
        forall|i: int, j: int| 0 <= i < j < r@.len() ==> r@[i] != r@[j],
{
    let mut nums: Vec<usize> = Vec::new();
    if n == 0 {
        return nums;
    }
    let mut candidates: Vec<usize> = Vec::new();
    let mut c: usize = 0;
    while c < modulo as usize
        invariant
            0 < modulo,
            c <= modulo,
            candidates@.len() == c,
            forall|a: int| 0 <= a < c ==> candidates@[a] == a,
        decreases modulo - c,
    {
        candidates.push(c);
        c = c + 1;
    }
    let mut i: i32 = 0;
    while i < n
        invariant
            0 <= i <= n <= modulo,
            nums@.len() == i,
            candidates@.len() == modulo - i,
            forall|a: int| 0 <= a < nums@.len() ==> nums@[a] < modulo,
            forall|a: int| 0 <= a < candidates@.len() ==> candidates@[a] < modulo,
            forall|a: int, b: int| 0 <= a < b < nums@.len() ==> nums@[a] != nums@[b],
            forall|a: int, b: int|
                0 <= a < b < candidates@.len() ==> candidates@[a] != candidates@[b],
            forall|a: int, b: int|
                0 <= a < nums@.len() && 0 <= b < candidates@.len() ==> nums@[a] != candidates@[b],
        decreases n - i,
    {
        let pick = random_below(candidates.len() as i32);
        let num = candidates[pick];
        let ghost old_candidates = candidates@;
        candidates.remove(pick);
        proof {
            assert(candidates@ == old_candidates.remove(pick as int));
            assert forall|a: int| 0 <= a < candidates@.len() implies candidates@[a] != num by {
                if a < pick {
                    assert(candidates@[a] == old_candidates[a]);
                } else {
                    assert(candidates@[a] == old_candidates[a + 1]);
                }
            }
        }
        nums.push(num);
        i = i + 1;
    }
    nums
}

/// The table of the first 2^m powers of the primitive element of
/// GF(2^m), in dense form, where `m + 1` is the primitive polynomial's
/// length.  Entry 0 is the unit; each later entry is the previous one
/// shifted up and reduced modulo the polynomial.
pub fn calculate_alphas(prime_polynomial: &BitVec) -> (r: Vec<BitVec>)
    requires
        2 <= prime_polynomial@.len(),
        prime_polynomial@.len() <= 17,
    ensures
        views_of(r@) == spec_alphas(
            prime_polynomial@,
            two_pow((prime_polynomial@.len() - 1) as nat),
        ),
        r@.len() == two_pow((prime_polynomial@.len() - 1) as nat),
        forall|i: int| 0 <= i < r@.len() ==> bits_of(r@[i]).len() == prime_polynomial@.len(),
{
    let ghost p = prime_polynomial@;
    let pol_size = prime_polynomial.len();
    let m = pol_size - 1;
    // alphas_count = 2^m
    let mut alphas_count: usize = 1;
    let mut e: usize = 0;
    while e < m
        invariant
            e <= m <= 16,
            alphas_count == two_pow(e as nat),
            alphas_count <= 0x10000,
        decreases m - e,
    {
        proof {
            lemma_two_pow_mono((e + 1) as nat, 16);
            reveal_with_fuel(two_pow, 17);
            assert(two_pow(16) == 0x10000);
        }
        alphas_count = alphas_count * 2;
        e = e + 1;
    }
    let mut alphas: Vec<BitVec> = Vec::new();
    let mut alpha_0 = BitVec::zeros(pol_size);
    alpha_0.set_bit(pol_size - 1, true);
    proof {
        assert(alpha_0@ =~= spec_alpha0(p));
    }
    alphas.push(alpha_0);
    proof {
        assert(views_of(alphas@) =~= spec_alphas(p, 1));
        lemma_two_pow_mono(0, m as nat);
    }
    let mut i: usize = 1;
    while i < alphas_count
        invariant
            1 <= i <= alphas_count,
            alphas_count <= 0x10000,
            prime_polynomial@ == p,
            2 <= p.len() <= 17,
            alphas@.len() == i,
            views_of(alphas@) == spec_alphas(p, i as nat),
            forall|k: int| 0 <= k < alphas@.len() ==> bits_of(alphas@[k]).len() == p.len(),
        decreases alphas_count - i,
    {
        let mut alpha_i = alphas[i - 1].clone_bits();
        // Shift the previous power up by one and pull in a zero.
        crate::bitvec_operations::shift_in_place(&mut alpha_i, false);
        proof {
            assert(alpha_i@ == shift_in(bits_of(alphas@[i - 1]), false));
        }
        if alpha_i.get_bit(0) {
            xor_in_place(&mut alpha_i, prime_polynomial);
        }
        proof {
            assert(alpha_i@ == div_step(bits_of(alphas@[i - 1]), p, false));
            assert(views_of(alphas@).last() == bits_of(alphas@[i - 1]));
        }
        alphas.push(alpha_i);
        i = i + 1;
        proof {
            assert(views_of(alphas@) =~= spec_alphas(p, i as nat));
        }
    }
    alphas
}

// ------------------------------------------------------------------
// Cyclotomic cosets ("layers"): orbits of an exponent under doubling
// modulo q - 1.
// ------------------------------------------------------------------

/// The `k`-th doubling of `e` modulo `q1`; the start itself is not
/// reduced.
pub open spec fn orbit_elem(e: int, k: nat, q1: int) -> int
    decreases k,
{
    if k == 0 {
        e
    } else {
        (2 * orbit_elem(e, (k - 1) as nat, q1)) % q1
    }
}

/// Whether `x` arises from `e` by repeated doubling modulo `q1`.
pub open spec fn in_orbit(x: int, e: int, q1: int) -> bool {
    exists|k: nat| x == orbit_elem(e, k, q1)
}

/// Composing doubling steps adds the step counts.
pub proof fn lemma_orbit_elem_compose(e: int, a: nat, b: nat, q1: int)
    ensures
        orbit_elem(e, (a + b) as nat, q1) == orbit_elem(orbit_elem(e, a, q1), b, q1),
    decreases b,
{
    if b > 0 {
        lemma_orbit_elem_compose(e, a, (b - 1) as nat, q1);
    }
}

/// Doubling modulo an odd modulus is injective on reduced values.
proof fn lemma_double_injective(a: int, b: int, q1: int)
    requires
        q1 >= 1,
        q1 % 2 == 1,
        0 <= a < q1,
        0 <= b < q1,
        (2 * a) % q1 == (2 * b) % q1,
    ensures
        a == b,
{
    let ra = if 2 * a < q1 {
        2 * a
    } else {
        2 * a - q1
    };
    if 2 * a < q1 {
        vstd::arithmetic::div_mod::lemma_fundamental_div_mod_converse_mod(2 * a, q1, 0, ra);
    } else {
        vstd::arithmetic::div_mod::lemma_fundamental_div_mod_converse_mod(2 * a, q1, 1, ra);
    }
    let rb = if 2 * b < q1 {
        2 * b
    } else {
        2 * b - q1
    };
    if 2 * b < q1 {
        vstd::arithmetic::div_mod::lemma_fundamental_div_mod_converse_mod(2 * b, q1, 0, rb);
    } else {
        vstd::arithmetic::div_mod::lemma_fundamental_div_mod_converse_mod(2 * b, q1, 1, rb);
    }
    assert(ra == rb);
    if 2 * a < q1 && 2 * b >= q1 {
        assert(q1 == (b - a) * 2);
        vstd::arithmetic::div_mod::lemma_mod_multiples_basic(b - a, 2);
        assert(false);
    } else if 2 * a >= q1 && 2 * b < q1 {
        assert(q1 == (a - b) * 2);
        vstd::arithmetic::div_mod::lemma_mod_multiples_basic(a - b, 2);
        assert(false);
    }
}

/// Pairwise distinct integers inside a window cannot outnumber it.
proof fn lemma_distinct_int_bounded(s: Seq<int>, bound: int)
    requires
        bound >= 0,
        forall|a: int, b: int| 0 <= a < b < s.len() ==> s[a] != s[b],
        forall|a: int| 0 <= a < s.len() ==> 0 <= #[trigger] s[a] < bound,
    ensures
        s.len() <= bound,
{
    broadcast use vstd::seq_lib::seq_to_set_is_finite;

    assert(s.no_duplicates()) by {
        assert forall|a: int, b: int|
            0 <= a < s.len() && 0 <= b < s.len() && a != b implies s[a] != s[b] by {}
    }
    s.unique_seq_to_set();
    vstd::set_lib::lemma_int_range(0, bound);
    assert(s.to_set().subset_of(vstd::set_lib::set_int_range(0, bound))) by {
        assert forall|x: int| s.to_set().contains(x) implies vstd::set_lib::set_int_range(
            0,
            bound,
        ).contains(x) by {
            let a = choose|a: int| 0 <= a < s.len() && s[a] == x;
        }
    }
    vstd::set_lib::lemma_len_subset(s.to_set(), vstd::set_lib::set_int_range(0, bound));
}

/// Equal orbit entries pull back step by step to the start.
proof fn lemma_orbit_pull_back(e: int, q1: int, a: nat, b: nat)
    requires
        q1 >= 1,
        q1 % 2 == 1,
        0 <= e < q1,
        a < b,
        orbit_elem(e, a, q1) == orbit_elem(e, b, q1),
    ensures
        orbit_elem(e, (b - a) as nat, q1) == e,
    decreases a,
{
    if a == 0 {
    } else {
        lemma_orbit_elem_bound(e, (a - 1) as nat, q1);
        lemma_orbit_elem_bound(e, (b - 1) as nat, q1);
        lemma_double_injective(
            orbit_elem(e, (a - 1) as nat, q1),
            orbit_elem(e, (b - 1) as nat, q1),
            q1,
        );
        lemma_orbit_pull_back(e, q1, (a - 1) as nat, (b - 1) as nat);
    }
}

/// Every orbit of a reduced start under an odd modulus is purely
/// periodic.
proof fn lemma_orbit_periodic(e: int, q1: int)
    requires
        q1 >= 1,
        q1 % 2 == 1,
        0 <= e < q1,
    ensures
        exists|p: nat| 1 <= p <= q1 && #[trigger] orbit_elem(e, p, q1) == e,
{
    let s = Seq::new((q1 + 1) as nat, |kk: int| orbit_elem(e, kk as nat, q1));
    assert forall|a: int| 0 <= a < s.len() implies 0 <= #[trigger] s[a] < q1 by {
        lemma_orbit_elem_bound(e, a as nat, q1);
    }
    if forall|a: int, b: int| 0 <= a < b < s.len() ==> s[a] != s[b] {
        lemma_distinct_int_bounded(s, q1);
        assert(false);
    }
    let (a, b) = choose|a: int, b: int| 0 <= a < b < s.len() && #[trigger] s[a] == #[trigger] s[b];
    assert(orbit_elem(e, a as nat, q1) == orbit_elem(e, b as nat, q1));
    lemma_orbit_pull_back(e, q1, a as nat, b as nat);
    assert(1 <= b - a <= q1);
    assert(orbit_elem(e, (b - a) as nat, q1) == e);
}

/// The orbit returns to the start at every multiple of a period.
proof fn lemma_orbit_period_multiple(e: int, q1: int, p: nat, m: nat)
    requires
        orbit_elem(e, p, q1) == e,
    ensures
        orbit_elem(e, (m * p) as nat, q1) == e,
    decreases m,
{
    if m > 0 {
        lemma_orbit_period_multiple(e, q1, p, (m - 1) as nat);
        let prev = ((m - 1) * p) as nat;
        assert(m * p == prev + p) by (nonlinear_arith)
            requires
                m >= 1,
                prev == (m - 1) * p,
        ;
        assert(((m - 1) as nat) * p == prev);
        assert(orbit_elem(e, prev, q1) == e);
        lemma_orbit_elem_compose(e, prev, p, q1);
        assert(orbit_elem(e, (prev + p) as nat, q1) == orbit_elem(orbit_elem(e, prev, q1), p, q1));
        assert(orbit_elem(e, (prev + p) as nat, q1) == e);
        assert((m * p) as nat == prev + p);
    } else {
        assert(m * p == 0) by (nonlinear_arith)
            requires
                m == 0,
        ;
    }
}

/// Two orbits that share an element contain each other's starts, as long
/// as the shared start is reduced and the modulus odd.
pub proof fn lemma_orbit_meet(s1: int, s2: int, x: int, q1: int)
    requires
        q1 >= 1,
        q1 % 2 == 1,
        0 <= s2 < q1,
        in_orbit(x, s1, q1),
        in_orbit(x, s2, q1),
    ensures
        in_orbit(s2, s1, q1),
{
    let k1 = choose|kk: nat| x == #[trigger] orbit_elem(s1, kk, q1);
    let k2 = choose|kk: nat| x == #[trigger] orbit_elem(s2, kk, q1);
    lemma_orbit_periodic(s2, q1);
    let p = choose|p: nat| 1 <= p <= q1 && #[trigger] orbit_elem(s2, p, q1) == s2;
    lemma_orbit_period_multiple(s2, q1, p, k2);
    assert(k2 * p >= k2) by (nonlinear_arith)
        requires
            p >= 1,
            k2 >= 0,
    ;
    let d = (k2 * p - k2) as nat;
    lemma_orbit_elem_compose(s2, k2, d, q1);
    assert(orbit_elem(x, d, q1) == s2);
    lemma_orbit_elem_compose(s1, k1, d, q1);
    assert(orbit_elem(s1, (k1 + d) as nat, q1) == s2);
}

/// Strictly ascending (hence duplicate-free).
pub open spec fn sorted_strict(s: Seq<u32>) -> bool {
    forall|a: int, b: int| 0 <= a < b < s.len() ==> s[a] < s[b]
}

/// The sequences of numbers a list of vectors holds.
pub open spec fn layer_views(s: Seq<Vec<u32>>) -> Seq<Seq<u32>> {
    s.map_values(|v: Vec<u32>| v@)
}

/// Whether some layer of the list holds `o`.
pub open spec fn orbit_covered(ls: Seq<Seq<u32>>, o: u32) -> bool {
    exists|i: int| 0 <= i < ls.len() && ls[i].contains(o)
}

/// Whether `v` holds `x`.
fn contains_u32(v: &Vec<u32>, x: u32) -> (r: bool)
    ensures
        r == v@.contains(x),
{
    let mut i: usize = 0;
    while i < v.len()
        invariant
            i <= v@.len(),
            forall|j: int| 0 <= j < i ==> v@[j] != x,
        decreases v@.len() - i,
    {
        if v[i] == x {
            return true;
        }
        i = i + 1;
    }
    false
}

/// Pairwise distinct values below a bound cannot outnumber the bound.
pub(crate) proof fn lemma_distinct_bounded(s: Seq<u32>, bound: int)
    requires
        bound >= 0,
        forall|a: int, b: int| 0 <= a < b < s.len() ==> s[a] != s[b],
        forall|a: int| 0 <= a < s.len() ==> (s[a] as int) < bound,
    ensures
        s.len() <= bound,
{
    broadcast use vstd::seq_lib::seq_to_set_is_finite;

    let t = s.map_values(|x: u32| x as int);
    assert(t.no_duplicates()) by {
        assert forall|a: int, b: int| 0 <= a < t.len() && 0 <= b < t.len() && a != b implies t[a]
            != t[b] by {
            assert(t[a] == s[a] as int);
            assert(t[b] == s[b] as int);
        }
    }
    t.unique_seq_to_set();
    vstd::set_lib::lemma_int_range(0, bound);
    assert(t.to_set().subset_of(vstd::set_lib::set_int_range(0, bound))) by {
        assert forall|x: int| t.to_set().contains(x) implies vstd::set_lib::set_int_range(
            0,
            bound,
        ).contains(x) by {
            let a = choose|a: int| 0 <= a < t.len() && t[a] == x;
            assert(t[a] == s[a] as int);
        }
    }
    vstd::set_lib::lemma_len_subset(t.to_set(), vstd::set_lib::set_int_range(0, bound));
}

/// Once the next doubling of the last entry already occurs in the chain,
/// the chain holds the entire orbit.
proof fn lemma_orbit_closed(layer: Seq<u32>, start: int, q1: int, k: nat)
    requires
        q1 >= 1,
        layer.len() >= 1,
        forall|a: int|
            0 <= a < layer.len() ==> (#[trigger] layer[a]) as int == orbit_elem(start, a as nat, q1),
        exists|b: int|
            0 <= b < layer.len() && (#[trigger] layer[b]) as int == orbit_elem(
                start,
                layer.len() as nat,
                q1,
            ),
    ensures
        exists|a: int|
            0 <= a < layer.len() && (#[trigger] layer[a]) as int == orbit_elem(start, k, q1),
    decreases k,
{
    if k < layer.len() {
        assert(layer[k as int] as int == orbit_elem(start, k, q1));
    } else {
        lemma_orbit_closed(layer, start, q1, (k - 1) as nat);
        let a = choose|a: int|
            0 <= a < layer.len() && (#[trigger] layer[a]) as int == orbit_elem(
                start,
                (k - 1) as nat,
                q1,
            );
        assert(orbit_elem(start, k, q1) == (2 * orbit_elem(start, (k - 1) as nat, q1)) % q1);
        assert(orbit_elem(start, (a + 1) as nat, q1) == (2 * orbit_elem(start, a as nat, q1))
            % q1);
        if a + 1 < layer.len() {
            assert(layer[a + 1] as int == orbit_elem(start, k, q1));
        } else {
            let b = choose|b: int|
                0 <= b < layer.len() && (#[trigger] layer[b]) as int == orbit_elem(
                    start,
                    layer.len() as nat,
                    q1,
                );
            assert(layer[b] as int == orbit_elem(start, k, q1));
        }
    }
}

/// Orbit members of a reduced start stay below the modulus.
pub(crate) proof fn lemma_orbit_elem_bound(e: int, k: nat, q1: int)
    requires
        q1 >= 1,
        0 <= e < q1,
    ensures
        0 <= orbit_elem(e, k, q1) < q1,
    decreases k,
{
    if k > 0 {
        lemma_orbit_elem_bound(e, (k - 1) as nat, q1);
        vstd::arithmetic::div_mod::lemma_mod_division_less_than_divisor(
            2 * orbit_elem(e, (k - 1) as nat, q1),
            q1,
        );
    }
}

/// Grows the orbit of `start` under doubling modulo `q1` until it
/// repeats, then returns it in strictly ascending order.
fn build_layer(start: u32, q1: u32) -> (r: Vec<u32>)
    requires
        1 <= q1 <= 0x4000_0000,
        start <= 0x4000_0000,
    ensures
        sorted_strict(r@),
        r@.len() >= 1,
        forall|x: u32| #[trigger] r@.contains(x) <==> in_orbit(x as int, start as int, q1 as int),
{
    let mut layer: Vec<u32> = Vec::new();
    layer.push(start);
    loop
        invariant
            1 <= q1 <= 0x4000_0000,
            start <= 0x4000_0000,
            1 <= layer@.len() <= q1 + 1,
            forall|a: int| 1 <= a < layer@.len() ==> (#[trigger] layer@[a]) < q1,
            forall|a: int, b: int| 0 <= a < b < layer@.len() ==> layer@[a] != layer@[b],
            forall|a: int|
                0 <= a < layer@.len() ==> (#[trigger] layer@[a]) as int == orbit_elem(
                    start as int,
                    a as nat,
                    q1 as int,
                ),
        ensures
            1 <= layer@.len(),
            forall|a: int|
                0 <= a < layer@.len() ==> (#[trigger] layer@[a]) as int == orbit_elem(
                    start as int,
                    a as nat,
                    q1 as int,
                ),
            exists|b: int|
                0 <= b < layer@.len() && (#[trigger] layer@[b]) as int == orbit_elem(
                    start as int,
                    layer@.len() as nat,
                    q1 as int,
                ),
        decreases q1 + 1 - layer@.len(),
    {
        let last = layer[layer.len() - 1];
        let candidate = (last * 2) % q1;
        proof {
            assert(candidate as int == orbit_elem(start as int, layer@.len() as nat, q1 as int));
        }
        if contains_u32(&layer, candidate) {
            proof {
                let b = choose|b: int| 0 <= b < layer@.len() && layer@[b] == candidate;
                assert(layer@[b] as int == orbit_elem(start as int, layer@.len() as nat, q1 as int));
            }
            break ;
        }
        layer.push(candidate);
        proof {
            let tail = layer@.subrange(1, layer@.len() as int);
            assert forall|a: int, b: int| 0 <= a < b < tail.len() implies tail[a] != tail[b] by {
                assert(tail[a] == layer@[a + 1]);
                assert(tail[b] == layer@[b + 1]);
            }
            assert forall|a: int| 0 <= a < tail.len() implies (tail[a] as int) < q1 by {
                assert(tail[a] == layer@[a + 1]);
            }
            lemma_distinct_bounded(tail, q1 as int);
        }
    }
    let ghost raw = layer@;
    // Collect the members in ascending order.
    let bound: u32 = if start >= q1 {
        start + 1
    } else {
        q1
    };
    let mut sorted: Vec<u32> = Vec::new();
    let mut v: u32 = 0;
    while v < bound
        invariant
            v <= bound,
            layer@ == raw,
            forall|a: int| 0 <= a < raw.len() ==> (#[trigger] raw[a]) < bound,
            sorted_strict(sorted@),
            forall|a: int| 0 <= a < sorted@.len() ==> (#[trigger] sorted@[a]) < v,
            forall|x: u32| #[trigger] sorted@.contains(x) <==> (x < v && raw.contains(x)),
        decreases bound - v,
    {
        if contains_u32(&layer, v) {
            let ghost pre = sorted@;
            sorted.push(v);
            proof {
                assert forall|x: u32| #[trigger] sorted@.contains(x) implies (x < v + 1
                    && raw.contains(x)) by {
                    let a = choose|a: int| 0 <= a < sorted@.len() && sorted@[a] == x;
                    if a < pre.len() {
                        assert(pre.contains(x));
                    }
                }
                assert forall|x: u32| (x < v + 1 && raw.contains(x)) implies #[trigger] sorted@
                    .contains(x) by {
                    if x < v {
                        assert(pre.contains(x));
                        let a = choose|a: int| 0 <= a < pre.len() && pre[a] == x;
                        assert(sorted@[a] == x);
                    } else {
                        assert(sorted@[sorted@.len() - 1] == x);
                    }
                }
            }
        }
        v = v + 1;
    }
    proof {
        assert(raw.len() >= 1);
        assert(raw[0] as int == orbit_elem(start as int, 0, q1 as int));
        assert(raw.contains(start));
        assert(sorted@.contains(start));
        assert(sorted@.len() >= 1);
        assert forall|x: u32| #[trigger] sorted@.contains(x) <==> in_orbit(
            x as int,
            start as int,
            q1 as int,
        ) by {
            if sorted@.contains(x) {
                let a = choose|a: int| 0 <= a < raw.len() && raw[a] == x;
                assert(raw[a] as int == orbit_elem(start as int, a as nat, q1 as int));
            }
            if in_orbit(x as int, start as int, q1 as int) {
                let k = choose|k: nat| x as int == orbit_elem(start as int, k, q1 as int);
                lemma_orbit_closed(raw, start as int, q1 as int, k);
                let a = choose|a: int|
                    0 <= a < raw.len() && (#[trigger] raw[a]) as int == orbit_elem(
                        start as int,
                        k,
                        q1 as int,
                    );
                assert(raw.contains(raw[a]));
                assert(raw[a] < bound);
            }
        }
    }
    sorted
}

/// One layer per starting exponent `1 ..= n`: the orbit of that exponent
/// under doubling modulo `alphas_len - 1`, in ascending order.
pub fn get_n_first_layers(n: u32, alphas_len: usize) -> (r: Vec<Vec<u32>>)
    requires
        2 <= alphas_len <= 0x4000_0000,
        n <= 0x4000_0000,
    ensures
        r@.len() == n,
        forall|li: int|
            0 <= li < n ==> sorted_strict(#[trigger] r@[li]@) && (forall|x: u32|
                #[trigger] r@[li]@.contains(x) <==> in_orbit(
                    x as int,
                    li + 1,
                    alphas_len - 1,
                )),
{
    let q1 = (alphas_len - 1) as u32;
    let mut layers: Vec<Vec<u32>> = Vec::new();
    let mut i: u32 = 1;
    while i <= n
        invariant
            1 <= i <= n + 1,
            n <= 0x4000_0000,
            q1 == alphas_len - 1,
            1 <= q1 <= 0x4000_0000,
            layers@.len() == i - 1,
            forall|li: int|
                0 <= li < i - 1 ==> sorted_strict(#[trigger] layers@[li]@) && (forall|x: u32|
                    #[trigger] layers@[li]@.contains(x) <==> in_orbit(
                        x as int,
                        li + 1,
                        alphas_len - 1,
                    )),
        decreases n + 1 - i,
    {
        let layer = build_layer(i, q1);
        layers.push(layer);
        i = i + 1;
    }
    layers
}

/// Whether `l` holds exactly the orbit of `e` under doubling modulo
/// `q1`.
pub open spec fn is_orbit_of(l: Seq<u32>, e: int, q1: int) -> bool {
    forall|x: u32| (#[trigger] l.contains(x)) <==> in_orbit(x as int, e, q1)
}

/// Whether `l` is the orbit of some exponent.
pub open spec fn has_orbit(l: Seq<u32>, q1: int) -> bool {
    exists|e: int| is_orbit_of(l, e, q1)
}

/// Whether some layer before index `li` holds `o`.
pub open spec fn covered_before(ls: Seq<Seq<u32>>, li: int, o: u32) -> bool {
    exists|j: int| 0 <= j < li && ls[j].contains(o)
}

/// The start exponents behind a layer list: each layer is the orbit of
/// its start and holds it; the starts are odd, strictly ascending, at
/// most `2t`, below the modulus, begin at 1, and every odd number skipped
/// between two starts already lay in an earlier layer.  Together with
/// pairwise disjointness this pins the construction: each start is the
/// smallest odd exponent not yet covered.
pub open spec fn spec_layer_starts_ok(starts: Seq<int>, ls: Seq<Seq<u32>>, t: int, q1: int) -> bool {
    &&& starts.len() == ls.len()
    &&& (forall|i: int| 0 <= i < ls.len() ==> is_orbit_of(ls[i], #[trigger] starts[i], q1))
    &&& (forall|i: int|
        0 <= i < ls.len() ==> 1 <= #[trigger] starts[i] <= 2 * t && starts[i] % 2 == 1 && starts[i]
            < q1)
    &&& (forall|i: int| 0 <= i < ls.len() ==> ls[i].contains((#[trigger] starts[i]) as u32))
    &&& (forall|a: int, b: int| 0 <= a < b < ls.len() ==> starts[a] < starts[b])
    &&& (ls.len() > 0 ==> starts[0] == 1)
    &&& (forall|li: int, o: u32|
        1 <= li < ls.len() && starts[li - 1] < o as int && (o as int) < starts[li] && o % 2 == 1
            ==> #[trigger] covered_before(ls, li, o))
}

/// Pairwise disjoint layers generated by an ascending odd start
/// sequence; holds whenever the modulus is odd and `2t` lies below it,
/// which is the shape every field of this codec has.
pub open spec fn spec_disjoint_layers_pinned(ls: Seq<Seq<u32>>, t: int, q1: int) -> bool {
    &&& (forall|a: int, b: int, x: u32|
        0 <= a < b < ls.len() && #[trigger] ls[a].contains(x) ==> !(#[trigger] ls[b].contains(x)))
    &&& (exists|starts: Seq<int>| #[trigger] spec_layer_starts_ok(starts, ls, t, q1))
}

/// A fresh orbit whose start lies in no earlier layer meets none of them:
/// two orbits sharing an element contain each other's starts.
proof fn lemma_new_layer_disjoint(
    lv_old: Seq<Seq<u32>>,
    starts: Seq<int>,
    layer: Seq<u32>,
    start: int,
    q1: int,
)
    requires
        1 <= q1 <= 0xFFFF_FFFF,
        q1 % 2 == 1,
        0 <= start < q1,
        starts.len() == lv_old.len(),
        forall|i: int| 0 <= i < lv_old.len() ==> is_orbit_of(lv_old[i], #[trigger] starts[i], q1),
        is_orbit_of(layer, start, q1),
        forall|i: int| 0 <= i < lv_old.len() ==> !(#[trigger] lv_old[i]).contains(start as u32),
    ensures
        forall|i: int, x: u32|
            0 <= i < lv_old.len() && #[trigger] lv_old[i].contains(x) ==> !(#[trigger] layer.contains(
                x,
            )),
{
    assert forall|i: int, x: u32|
        0 <= i < lv_old.len() && #[trigger] lv_old[i].contains(x) implies !(#[trigger] layer.contains(
        x,
    )) by {
        if layer.contains(x) {
            assert(in_orbit(x as int, starts[i], q1));
            assert(in_orbit(x as int, start, q1));
            lemma_orbit_meet(starts[i], start, x as int, q1);
            assert((start as u32) as int == start);
            assert(in_orbit((start as u32) as int, starts[i], q1));
            assert(lv_old[i].contains(start as u32));
        }
    }
}

/// What the disjoint-layer construction promises: at most `t` layers,
/// each a sorted full orbit under doubling modulo `q1`; the first is the
/// orbit of 1; every odd exponent up to `2t` below `q1` appears in some
/// layer; and, whenever the modulus is odd and `2t` lies below it, the
/// layers are pairwise disjoint and generated in order by the smallest
/// odd exponents not yet covered.
pub open spec fn spec_disjoint_layers_ok(ls: Seq<Seq<u32>>, t: int, q1: int) -> bool {
    &&& ls.len() <= t
    &&& (forall|i: int|
        0 <= i < ls.len() ==> sorted_strict(#[trigger] ls[i]) && ls[i].len() >= 1)
    &&& (forall|i: int| 0 <= i < ls.len() ==> #[trigger] has_orbit(ls[i], q1))
    &&& (t >= 1 ==> ls.len() >= 1 && is_orbit_of(ls[0], 1int % q1, q1))
    &&& (forall|o: u32|
        o % 2 == 1 && o <= 2 * t && (o as int) < q1 ==> #[trigger] orbit_covered(ls, o))
    &&& (forall|i: int, x: u32| 0 <= i < ls.len() && #[trigger] ls[i].contains(x) ==> (x as int) < q1)
    &&& (q1 % 2 == 1 && 2 * t < q1 ==> spec_disjoint_layers_pinned(ls, t, q1))
}

/// Strictly sorted sequences with the same members are equal.
proof fn lemma_sorted_same_members(a: Seq<u32>, b: Seq<u32>)
    requires
        sorted_strict(a),
        sorted_strict(b),
        forall|x: u32| a.contains(x) <==> #[trigger] b.contains(x),
    ensures
        a == b,
    decreases a.len(),
{
    if a.len() == 0 {
        if b.len() > 0 {
            assert(b.contains(b[0]));
            assert(a.contains(b[0]));
            assert(false);
        }
        assert(a =~= b);
    } else {
        assert(a.contains(a[0]));
        assert(b.contains(a[0]));
        assert(b.len() > 0);
        assert(b.contains(b[0]));
        assert(a.contains(b[0]));
        let ia = choose|ii: int| 0 <= ii < a.len() && a[ii] == b[0];
        if ia > 0 {
            assert(a[0] < a[ia]);
        }
        let ib = choose|ii: int| 0 <= ii < b.len() && b[ii] == a[0];
        if ib > 0 {
            assert(b[0] < b[ib]);
        }
        assert(a[0] == b[0]);
        let at = a.drop_first();
        let bt = b.drop_first();
        assert forall|x: u32| at.contains(x) <==> #[trigger] bt.contains(x) by {
            if at.contains(x) {
                let ii = choose|ii: int| 0 <= ii < at.len() && at[ii] == x;
                assert(a[ii + 1] == x);
                assert(a.contains(x));
                assert(a[0] < x);
                assert(b.contains(x));
                let jj = choose|jj: int| 0 <= jj < b.len() && b[jj] == x;
                assert(jj > 0) by {
                    if jj == 0 {
                        assert(x == b[0]);
                    }
                }
                assert(bt[jj - 1] == x);
                assert(bt.contains(x));
            }
            if bt.contains(x) {
                let ii = choose|ii: int| 0 <= ii < bt.len() && bt[ii] == x;
                assert(b[ii + 1] == x);
                assert(b.contains(x));
                assert(b[0] < x);
                assert(a.contains(x));
                let jj = choose|jj: int| 0 <= jj < a.len() && a[jj] == x;
                assert(jj > 0) by {
                    if jj == 0 {
                        assert(x == a[0]);
                    }
                }
                assert(at[jj - 1] == x);
                assert(at.contains(x));
            }
        }
        assert forall|p2: int, q2: int| 0 <= p2 < q2 < at.len() implies at[p2] < at[q2] by {
            assert(at[p2] == a[p2 + 1]);
            assert(at[q2] == a[q2 + 1]);
        }
        assert forall|p2: int, q2: int| 0 <= p2 < q2 < bt.len() implies bt[p2] < bt[q2] by {
            assert(bt[p2] == b[p2 + 1]);
            assert(bt[q2] == b[q2 + 1]);
        }
        lemma_sorted_same_members(at, bt);
        assert(a =~= b) by {
            assert forall|ii: int| 0 <= ii < a.len() implies a[ii] == b[ii] by {
                if ii > 0 {
                    assert(at[ii - 1] == bt[ii - 1]);
                }
            }
        }
    }
}

/// Conforming layer lists agree on every prefix: the starts are forced in
/// order, and each layer is the sorted orbit of its start.
proof fn lemma_layers_prefix_equal(
    ls1: Seq<Seq<u32>>,
    starts1: Seq<int>,
    ls2: Seq<Seq<u32>>,
    starts2: Seq<int>,
    t: int,
    q1: int,
    li: int,
)
    requires
        1 <= q1 <= 0xFFFF_FFFF,
        spec_disjoint_layers_ok(ls1, t, q1),
        spec_disjoint_layers_ok(ls2, t, q1),
        spec_layer_starts_ok(starts1, ls1, t, q1),
        spec_layer_starts_ok(starts2, ls2, t, q1),
        q1 % 2 == 1,
        2 * t < q1,
        0 <= li < ls1.len(),
        li < ls2.len(),
    ensures
        forall|j: int| 0 <= j <= li ==> starts1[j] == starts2[j] && ls1[j] == ls2[j],
    decreases li,
{
    if li > 0 {
        lemma_layers_prefix_equal(ls1, starts1, ls2, starts2, t, q1, li - 1);
    }
    // The starts at index li agree.
    if li == 0 {
        assert(starts1[0] == 1 && starts2[0] == 1);
    } else {
        if starts1[li] < starts2[li] {
            let s1 = starts1[li];
            let o = s1 as u32;
            assert(o as int == s1);
            assert(starts2[li - 1] == starts1[li - 1]);
            assert(starts1[li - 1] < s1);
            assert(o % 2 == 1) by {
                assert(s1 % 2 == 1);
            }
            assert(covered_before(ls2, li, o));
            let j = choose|j: int| 0 <= j < li && ls2[j].contains(o);
            assert(ls1[j].contains(o));
            assert(ls1[li].contains((starts1[li]) as u32));
            assert(false);
        }
        if starts2[li] < starts1[li] {
            let s2 = starts2[li];
            let o = s2 as u32;
            assert(o as int == s2);
            assert(starts1[li - 1] == starts2[li - 1]);
            assert(starts2[li - 1] < s2);
            assert(o % 2 == 1) by {
                assert(s2 % 2 == 1);
            }
            assert(covered_before(ls1, li, o));
            let j = choose|j: int| 0 <= j < li && ls1[j].contains(o);
            assert(ls2[j].contains(o));
            assert(ls2[li].contains((starts2[li]) as u32));
            assert(false);
        }
    }
    assert(starts1[li] == starts2[li]);
    // Equal starts force equal layers: both are the sorted orbit.
    assert forall|x: u32| ls1[li].contains(x) <==> #[trigger] ls2[li].contains(x) by {
        assert(is_orbit_of(ls1[li], starts1[li], q1));
        assert(is_orbit_of(ls2[li], starts2[li], q1));
        assert(ls1[li].contains(x) <==> in_orbit(x as int, starts1[li], q1));
        assert(ls2[li].contains(x) <==> in_orbit(x as int, starts2[li], q1));
    }
    assert(sorted_strict(ls1[li]) && sorted_strict(ls2[li]));
    lemma_sorted_same_members(ls1[li], ls2[li]);
}

/// Under the intended field shape the conforming layer list is unique:
/// the contract of the disjoint-coset construction pins its result.
pub proof fn lemma_disjoint_layers_unique(ls1: Seq<Seq<u32>>, ls2: Seq<Seq<u32>>, t: int, q1: int)
    requires
        1 <= q1 <= 0xFFFF_FFFF,
        q1 % 2 == 1,
        2 * t < q1,
        spec_disjoint_layers_ok(ls1, t, q1),
        spec_disjoint_layers_ok(ls2, t, q1),
    ensures
        ls1 == ls2,
{
    assert(spec_disjoint_layers_pinned(ls1, t, q1));
    assert(spec_disjoint_layers_pinned(ls2, t, q1));
    let starts1 = choose|st: Seq<int>| #[trigger] spec_layer_starts_ok(st, ls1, t, q1);
    let starts2 = choose|st: Seq<int>| #[trigger] spec_layer_starts_ok(st, ls2, t, q1);
    // Neither list can end while the other still starts a layer: the
    // extra start would already be covered, breaking disjointness.
    if ls1.len() < ls2.len() {
        let li = ls1.len() as int;
        let s2 = starts2[li];
        let o = s2 as u32;
        assert(o as int == s2);
        assert(o % 2 == 1) by {
            assert(s2 % 2 == 1);
        }
        assert(orbit_covered(ls1, o));
        let j = choose|j: int| 0 <= j < ls1.len() && ls1[j].contains(o);
        if li > 0 {
            lemma_layers_prefix_equal(ls1, starts1, ls2, starts2, t, q1, li - 1);
            assert(ls2[j].contains(o));
            assert(ls2[li].contains((starts2[li]) as u32));
        }
        assert(false);
    }
    if ls2.len() < ls1.len() {
        let li = ls2.len() as int;
        let s1 = starts1[li];
        let o = s1 as u32;
        assert(o as int == s1);
        assert(o % 2 == 1) by {
            assert(s1 % 2 == 1);
        }
        assert(orbit_covered(ls2, o));
        let j = choose|j: int| 0 <= j < ls2.len() && ls2[j].contains(o);
        if li > 0 {
            lemma_layers_prefix_equal(ls1, starts1, ls2, starts2, t, q1, li - 1);
            assert(ls1[j].contains(o));
            assert(ls1[li].contains((starts1[li]) as u32));
        }
        assert(false);
    }
    if ls1.len() > 0 {
        lemma_layers_prefix_equal(ls1, starts1, ls2, starts2, t, q1, ls1.len() - 1);
    }
    assert(ls1 =~= ls2);
}

/// Up to `t` cyclotomic cosets, one per odd start exponent taken in
/// ascending order, each start skipped once an earlier coset holds it;
/// stops early once the next start exceeds `2t`.
#[verifier::rlimit(100)]
pub fn get_n_disjunctive_layers(n: u32, alphas_len: usize) -> (r: Vec<Vec<u32>>)
    requires
        2 <= alphas_len <= 0x4000_0000,
        n <= 0x2000_0000,
    ensures
        spec_disjoint_layers_ok(layer_views(r@), n as int, alphas_len - 1),
{
    let q1 = (alphas_len - 1) as u32;
    let ghost q1i = q1 as int;
    let mut layers: Vec<Vec<u32>> = Vec::new();
    let half = alphas_len / 2;
    let mut fronts: Vec<u32> = Vec::new();
    let mut c: usize = 0;
    while c < half
        invariant
            c <= half,
            half <= 0x2000_0000,
            fronts@.len() == c,
            forall|a: int| 0 <= a < c ==> #[trigger] fronts@[a] == 1 + 2 * a,
        decreases half - c,
    {
        let v = (1 + 2 * c) as u32;
        fronts.push(v);
        c = c + 1;
    }
    proof {
        // Every odd number below q1 is an initial start candidate.
        assert forall|o: u32| o % 2 == 1 && (o as int) < q1i implies fronts@.contains(o) by {
            let a = ((o as int) - 1) / 2;
            assert(o as int == 1 + 2 * a);
            assert(fronts@[a] == o);
        }
        assert(fronts@[0] == 1);
    }
    let ghost mut starts: Seq<int> = Seq::empty();
    let ghost gg = q1i % 2 == 1 && 2 * (n as int) < q1i;
    let mut i: u32 = 0;
    while i < n
        invariant
            i <= n,
            n <= 0x2000_0000,
            1 <= q1 <= 0x4000_0000,
            q1i == q1 as int,
            layers@.len() == i,
            forall|a: int, b: int| 0 <= a < b < fronts@.len() ==> fronts@[a] < fronts@[b],
            forall|a: int| 0 <= a < fronts@.len() ==> #[trigger] fronts@[a] % 2 == 1,
            fronts@.len() > 0 ==> fronts@[0] as int >= 2 * i + 1,
            forall|li: int|
                0 <= li < layers@.len() ==> sorted_strict(#[trigger] layer_views(layers@)[li])
                    && layer_views(layers@)[li].len() >= 1,
            starts.len() == layers@.len(),
            forall|li: int|
                #![trigger layer_views(layers@)[li]]
                0 <= li < layers@.len() ==> is_orbit_of(layer_views(layers@)[li], starts[li], q1i),
            i >= 1 ==> is_orbit_of(layer_views(layers@)[0], (1u32 % q1) as int, q1i),
            i == 0 ==> fronts@.len() >= 1 && fronts@[0] == 1,
            forall|o: u32|
                o % 2 == 1 && (o as int) < q1i ==> fronts@.contains(o) || #[trigger] orbit_covered(
                    layer_views(layers@),
                    o,
                ),
            forall|li: int, x: u32|
                0 <= li < layers@.len() && #[trigger] layer_views(layers@)[li].contains(x) ==> (
                x as int) < q1i,
            gg == (q1i % 2 == 1 && 2 * (n as int) < q1i),
            forall|a: int, li: int|
                0 <= a < fronts@.len() && 0 <= li < layers@.len()
                    ==> !(#[trigger] layer_views(layers@)[li].contains(fronts@[a])),
            gg ==> (forall|a: int, b: int, x: u32|
                0 <= a < b < layers@.len() && #[trigger] layer_views(layers@)[a].contains(x)
                    ==> !(#[trigger] layer_views(layers@)[b].contains(x))),
            gg ==> (forall|li: int|
                0 <= li < layers@.len() ==> 1 <= #[trigger] starts[li] <= 2 * (n as int)
                    && starts[li] % 2 == 1 && starts[li] < q1i),
            gg ==> (forall|li: int|
                0 <= li < layers@.len() ==> layer_views(layers@)[li].contains(
                    (#[trigger] starts[li]) as u32,
                )),
            gg ==> (forall|a: int, b: int| 0 <= a < b < layers@.len() ==> starts[a] < starts[b]),
            gg ==> (layers@.len() > 0 ==> starts[0] == 1),
            gg ==> (forall|li: int, o: u32|
                1 <= li < layers@.len() && starts[li - 1] < o as int && (o as int) < starts[li]
                    && o % 2 == 1 ==> #[trigger] covered_before(layer_views(layers@), li, o)),
            gg && starts.len() > 0 ==> (forall|a: int|
                0 <= a < fronts@.len() ==> starts[starts.len() - 1] < (#[trigger] fronts@[a]) as int),
        ensures
            layers@.len() <= n,
            forall|a: int, b: int| 0 <= a < b < fronts@.len() ==> fronts@[a] < fronts@[b],
            forall|li: int|
                0 <= li < layers@.len() ==> sorted_strict(#[trigger] layer_views(layers@)[li])
                    && layer_views(layers@)[li].len() >= 1,
            starts.len() == layers@.len(),
            forall|li: int|
                #![trigger layer_views(layers@)[li]]
                0 <= li < layers@.len() ==> is_orbit_of(layer_views(layers@)[li], starts[li], q1i),
            n >= 1 ==> layers@.len() >= 1 && is_orbit_of(
                layer_views(layers@)[0],
                (1u32 % q1) as int,
                q1i,
            ),
            forall|o: u32|
                o % 2 == 1 && (o as int) < q1i ==> fronts@.contains(o) || #[trigger] orbit_covered(
                    layer_views(layers@),
                    o,
                ),
            forall|li: int, x: u32|
                0 <= li < layers@.len() && #[trigger] layer_views(layers@)[li].contains(x) ==> (
                x as int) < q1i,
            fronts@.len() == 0 || fronts@[0] as int > 2 * (n as int) || fronts@[0] as int >= 2 * (
            n as int) + 1,
            gg ==> (forall|a: int, b: int, x: u32|
                0 <= a < b < layers@.len() && #[trigger] layer_views(layers@)[a].contains(x)
                    ==> !(#[trigger] layer_views(layers@)[b].contains(x))),
            gg ==> (forall|li: int|
                0 <= li < layers@.len() ==> 1 <= #[trigger] starts[li] <= 2 * (n as int)
                    && starts[li] % 2 == 1 && starts[li] < q1i),
            gg ==> (forall|li: int|
                0 <= li < layers@.len() ==> layer_views(layers@)[li].contains(
                    (#[trigger] starts[li]) as u32,
                )),
            gg ==> (forall|a: int, b: int| 0 <= a < b < layers@.len() ==> starts[a] < starts[b]),
            gg ==> (layers@.len() > 0 ==> starts[0] == 1),
            gg ==> (forall|li: int, o: u32|
                1 <= li < layers@.len() && starts[li - 1] < o as int && (o as int) < starts[li]
                    && o % 2 == 1 ==> #[trigger] covered_before(layer_views(layers@), li, o)),
        decreases n - i,
    {
        if fronts.len() == 0 {
            break ;
        }
        let front = fronts[0];
        if front > 2 * n {
            break ;
        }
        let ghost fronts_at_entry = fronts@;
        fronts.remove(0);
        let ghost fronts_popped = fronts@;
        proof {
            assert(fronts_popped =~= fronts_at_entry.subrange(1, fronts_at_entry.len() as int));
            assert forall|a: int, b: int| 0 <= a < b < fronts_popped.len() implies fronts_popped[a]
                < fronts_popped[b] by {
                assert(fronts_popped[a] == fronts_at_entry[a + 1]);
                assert(fronts_popped[b] == fronts_at_entry[b + 1]);
            }
            assert forall|a: int| 0 <= a < fronts_popped.len() implies #[trigger] fronts_popped[a]
                % 2 == 1 by {
                assert(fronts_popped[a] == fronts_at_entry[a + 1]);
            }
        }
        let start = front % q1;
        let layer = build_layer(start, q1);
        // Drop pending starts that this coset already holds.
        let mut kept: Vec<u32> = Vec::new();
        let mut j: usize = 0;
        while j < fronts.len()
            invariant
                j <= fronts@.len(),
                fronts@ == fronts_popped,
                forall|a: int, b: int| 0 <= a < b < fronts@.len() ==> fronts@[a] < fronts@[b],
                forall|a: int| 0 <= a < fronts@.len() ==> #[trigger] fronts@[a] % 2 == 1,
                forall|a: int, b: int| 0 <= a < b < kept@.len() ==> kept@[a] < kept@[b],
                forall|a: int| 0 <= a < kept@.len() ==> #[trigger] kept@[a] % 2 == 1,
                j < fronts@.len() ==> (forall|a: int|
                    0 <= a < kept@.len() ==> #[trigger] kept@[a] < fronts@[j as int]),
                forall|x: u32|
                    #[trigger] kept@.contains(x) <==> (fronts@.subrange(0, j as int).contains(x)
                        && !layer@.contains(x)),
            decreases fronts@.len() - j,
        {
            let f = fronts[j];
            let ghost pre = kept@;
            let in_layer = contains_u32(&layer, f);
            if !in_layer {
                kept.push(f);
            }
            proof {
                assert(fronts@.subrange(0, j as int).push(fronts@[j as int]) =~= fronts@.subrange(
                    0,
                    j + 1,
                ));
                assert forall|x: u32| #[trigger] kept@.contains(x) implies (fronts@.subrange(
                    0,
                    j + 1,
                ).contains(x) && !layer@.contains(x)) by {
                    let a = choose|a: int| 0 <= a < kept@.len() && kept@[a] == x;
                    if a < pre.len() {
                        assert(pre.contains(x));
                        let b = choose|b: int| 0 <= b < j && fronts@.subrange(0, j as int)[b] == x;
                        assert(fronts@.subrange(0, j + 1)[b] == x);
                    } else {
                        assert(x == fronts@[j as int]);
                        assert(fronts@.subrange(0, j + 1)[j as int] == x);
                    }
                }
                assert forall|x: u32|
                    (fronts@.subrange(0, j + 1).contains(x) && !layer@.contains(x))
                        implies #[trigger] kept@.contains(x) by {
                    let a = choose|a: int|
                        0 <= a < j + 1 && #[trigger] fronts@.subrange(0, j + 1)[a] == x;
                    if a < j {
                        assert(fronts@.subrange(0, j as int)[a] == x);
                        assert(pre.contains(x));
                        let b = choose|b: int| 0 <= b < pre.len() && pre[b] == x;
                        assert(kept@[b] == x);
                    } else {
                        assert(x == fronts@[j as int]);
                        assert(kept@[kept@.len() - 1] == x);
                    }
                }
            }
            j = j + 1;
        }
        proof {
            assert(fronts@.subrange(0, fronts@.len() as int) =~= fronts@);
        }
        let ghost old_layers = layers@;
        let ghost old_starts = starts;
        layers.push(layer);
        fronts = kept;
        proof {
            starts = starts.push(start as int);
            let lv = layer_views(layers@);
            assert(lv =~= layer_views(old_layers).push(layer@));
            assert forall|li: int| 0 <= li < old_layers.len() implies lv[li] == layer_views(
                old_layers,
            )[li] by {}
            assert(lv[old_layers.len() as int] == layer@);
            // The new layer is the full orbit of its start.
            assert(is_orbit_of(layer@, start as int, q1i));
            assert(is_orbit_of(lv[old_layers.len() as int], start as int, q1i));
            assert forall|li: int| #![trigger lv[li]] 0 <= li < layers@.len() implies is_orbit_of(
                lv[li],
                starts[li],
                q1i,
            ) by {
                if li < old_layers.len() {
                    assert(lv[li] == layer_views(old_layers)[li]);
                }
            }
            if i == 0 {
                assert(front == 1);
            }
            vstd::arithmetic::div_mod::lemma_mod_division_less_than_divisor(
                front as int,
                q1 as int,
            );
            assert forall|li: int, x: u32|
                0 <= li < layers@.len() && #[trigger] lv[li].contains(x) implies (x as int)
                < q1i by {
                if li < old_layers.len() {
                    assert(layer_views(old_layers)[li].contains(x));
                } else {
                    assert(in_orbit(x as int, start as int, q1i));
                    let k = choose|k: nat| x as int == orbit_elem(start as int, k, q1i);
                    lemma_orbit_elem_bound(start as int, k, q1i);
                }
            }
            // The next pending start lies at least two above the popped
            // one.
            if fronts@.len() > 0 {
                assert(fronts@.contains(fronts@[0]));
                assert(fronts_popped.contains(fronts@[0]));
                let a = choose|a: int|
                    0 <= a < fronts_popped.len() && fronts_popped[a] == fronts@[0];
                assert(fronts_popped[0] <= fronts_popped[a]);
                assert(fronts_popped[0] == fronts_at_entry[1]);
                assert(fronts_at_entry[0] == front);
                assert(fronts_at_entry[1] % 2 == 1 && front % 2 == 1);
                assert(fronts_at_entry[1] > front);
                assert(fronts_at_entry[1] as int >= front as int + 2);
                assert(fronts@[0] as int >= 2 * (i as int) + 3);
            }
            // Every odd number below q1 is still pending or covered.
            assert forall|o: u32|
                o % 2 == 1 && (o as int) < q1i implies fronts@.contains(o)
                    || #[trigger] orbit_covered(lv, o) by {
                if !fronts@.contains(o) {
                    if orbit_covered(layer_views(old_layers), o) {
                        let li = choose|li: int|
                            0 <= li < old_layers.len() && layer_views(old_layers)[li].contains(o);
                        assert(lv[li].contains(o));
                        assert(orbit_covered(lv, o));
                    } else {
                        assert(fronts_at_entry.contains(o));
                        let a = choose|a: int|
                            0 <= a < fronts_at_entry.len() && fronts_at_entry[a] == o;
                        if a == 0 {
                            assert(o == front);
                            assert((front as int) < q1i);
                            vstd::arithmetic::div_mod::lemma_small_mod(
                                front as nat,
                                q1 as nat,
                            );
                            assert(start == front);
                            assert(orbit_elem(start as int, 0, q1i) == start as int);
                            assert(in_orbit(o as int, start as int, q1i));
                            assert(layer@.contains(o));
                        } else {
                            assert(fronts_popped[a - 1] == o);
                            assert(fronts_popped.contains(o));
                            assert(layer@.contains(o));
                        }
                        assert(lv[old_layers.len() as int].contains(o));
                        assert(orbit_covered(lv, o));
                    }
                }
            }
            // Pending numbers never lie in an emitted layer: the popped
            // start was pending, the kept ones were just filtered.
            assert forall|a: int, li: int|
                0 <= a < fronts@.len() && 0 <= li < layers@.len() implies !(#[trigger] lv[li].contains(
                fronts@[a],
            )) by {
                assert(fronts@.contains(fronts@[a]));
                assert(fronts_popped.contains(fronts@[a]));
                let b = choose|b: int|
                    0 <= b < fronts_popped.len() && fronts_popped[b] == fronts@[a];
                assert(fronts_at_entry[b + 1] == fronts@[a]);
                if li < old_layers.len() {
                    assert(!layer_views(old_layers)[li].contains(fronts_at_entry[b + 1]));
                } else {
                    assert(!layer@.contains(fronts@[a]));
                }
            }
            if gg {
                assert(front <= 2 * n);
                assert((front as int) < q1i);
                vstd::arithmetic::div_mod::lemma_small_mod(front as nat, q1 as nat);
                assert(start == front);
                assert(start % 2 == 1 && 1 <= start);
                assert(starts[old_layers.len() as int] == start as int);
                // The new start exceeds every earlier one, and the kept
                // pending numbers exceed the new start.
                if old_starts.len() > 0 {
                    assert(old_starts[old_starts.len() - 1] < fronts_at_entry[0] as int);
                }
                assert forall|a: int, b: int|
                    0 <= a < b < layers@.len() implies starts[a] < starts[b] by {
                    if b < old_layers.len() {
                        assert(old_starts[a] < old_starts[b]);
                    } else {
                        if a < old_layers.len() - 1 {
                            assert(old_starts[a] < old_starts[old_starts.len() - 1]);
                        }
                    }
                }
                assert forall|a: int|
                    0 <= a < fronts@.len() implies starts[starts.len() - 1]
                    < (#[trigger] fronts@[a]) as int by {
                    assert(fronts@.contains(fronts@[a]));
                    assert(fronts_popped.contains(fronts@[a]));
                    let b = choose|b: int|
                        0 <= b < fronts_popped.len() && fronts_popped[b] == fronts@[a];
                    assert(fronts_popped[b] == fronts_at_entry[b + 1]);
                    assert(fronts_at_entry[0] < fronts_at_entry[b + 1]);
                }
                // Start values and start membership.
                assert forall|li: int|
                    0 <= li < layers@.len() implies 1 <= #[trigger] starts[li] <= 2 * (n as int)
                    && starts[li] % 2 == 1 && starts[li] < q1i by {}
                assert(orbit_elem(start as int, 0, q1i) == start as int);
                assert(in_orbit(start as int, start as int, q1i));
                assert(layer@.contains(start));
                assert(((start as int) as u32) == start);
                assert forall|li: int|
                    0 <= li < layers@.len() implies lv[li].contains(
                    (#[trigger] starts[li]) as u32,
                ) by {
                    if li < old_layers.len() {
                        assert(layer_views(old_layers)[li].contains((old_starts[li]) as u32));
                    }
                }
                if i == 0 {
                    assert(starts[0] == 1);
                }
                // Gap minimality: every odd number skipped between the
                // previous start and this one already lay in a layer.
                assert forall|li: int, o: u32|
                    1 <= li < layers@.len() && starts[li - 1] < o as int && (o as int) < starts[li]
                        && o % 2 == 1 implies #[trigger] covered_before(lv, li, o) by {
                    if li < old_layers.len() {
                        assert(covered_before(layer_views(old_layers), li, o));
                        let j2 = choose|j2: int|
                            0 <= j2 < li && layer_views(old_layers)[j2].contains(o);
                        assert(lv[j2].contains(o));
                    } else {
                        // o lies below the popped front, so it was no
                        // longer pending at this step.
                        assert((o as int) < start as int);
                        assert((o as int) < q1i);
                        assert(!fronts_at_entry.contains(o)) by {
                            if fronts_at_entry.contains(o) {
                                let a2 = choose|a2: int|
                                    0 <= a2 < fronts_at_entry.len() && fronts_at_entry[a2] == o;
                                if a2 > 0 {
                                    assert(fronts_at_entry[0] < fronts_at_entry[a2]);
                                }
                            }
                        }
                        assert(orbit_covered(layer_views(old_layers), o));
                        let j2 = choose|j2: int|
                            0 <= j2 < old_layers.len() && layer_views(old_layers)[j2].contains(o);
                        assert(lv[j2].contains(o));
                    }
                }
                // Pairwise disjointness: the new orbit's start lay in no
                // earlier layer, so the orbits cannot meet.
                assert forall|li: int|
                    0 <= li < old_layers.len() implies !(#[trigger] layer_views(old_layers)[li]).contains(
                    (start as int) as u32,
                ) by {
                    assert(fronts_at_entry[0] == front);
                    assert(!layer_views(old_layers)[li].contains(fronts_at_entry[0]));
                }
                lemma_new_layer_disjoint(
                    layer_views(old_layers),
                    old_starts,
                    layer@,
                    start as int,
                    q1i,
                );
                assert forall|a: int, b: int, x: u32|
                    0 <= a < b < layers@.len() && #[trigger] lv[a].contains(x)
                        implies !(#[trigger] lv[b].contains(x)) by {
                    if b < old_layers.len() {
                        assert(layer_views(old_layers)[a].contains(x));
                        assert(!layer_views(old_layers)[b].contains(x));
                    } else {
                        assert(layer_views(old_layers)[a].contains(x));
                        assert(!layer@.contains(x));
                    }
                }
            }
        }
        i = i + 1;
    }
    proof {
        let lv = layer_views(layers@);
        assert(q1i == alphas_len - 1);
        assert forall|li: int| 0 <= li < lv.len() implies #[trigger] has_orbit(lv[li], q1i) by {
            assert(is_orbit_of(lv[li], starts[li], q1i));
        }
        assert forall|o: u32|
            o % 2 == 1 && (o as int) <= 2 * (n as int) && (o as int) < q1i
                implies #[trigger] orbit_covered(lv, o) by {
            if fronts@.contains(o) {
                let a = choose|a: int| 0 <= a < fronts@.len() && fronts@[a] == o;
                if a > 0 {
                    assert(fronts@[0] < fronts@[a]);
                }
            }
        }
        assert((1u32 % q1) as int == 1int % q1i);
        if q1i % 2 == 1 && 2 * (n as int) < q1i {
            assert(spec_layer_starts_ok(starts, lv, n as int, q1i));
            assert(spec_disjoint_layers_pinned(lv, n as int, q1i));
        }
        assert(spec_disjoint_layers_ok(lv, n as int, q1i));
    }
    layers
}

// ------------------------------------------------------------------
// Minimal polynomials of layers.
// ------------------------------------------------------------------

/// All `k`-element combinations of `s`, in lexicographic order of
/// positions: first those holding the head, then those without it.
pub open spec fn spec_combos(s: Seq<u32>, k: nat) -> Seq<Seq<u32>>
    decreases s.len(),
{
    if k == 0 {
        seq![Seq::<u32>::empty()]
    } else if s.len() == 0 {
        Seq::<Seq<u32>>::empty()
    } else {
        spec_combos(s.drop_first(), (k - 1) as nat).map_values(|c: Seq<u32>| seq![s[0]] + c)
            + spec_combos(s.drop_first(), k)
    }
}

/// Every entry of every combination is an entry of `s`.
pub proof fn lemma_combos_elements(s: Seq<u32>, k: nat)
    ensures
        forall|ci: int, ei: int|
            0 <= ci < spec_combos(s, k).len() && 0 <= ei < spec_combos(s, k)[ci].len()
                ==> s.contains(#[trigger] spec_combos(s, k)[ci][ei]),
    decreases s.len(),
{
    if k == 0 || s.len() == 0 {
    } else {
        let rest = s.drop_first();
        lemma_combos_elements(rest, (k - 1) as nat);
        lemma_combos_elements(rest, k);
        let first_block = spec_combos(rest, (k - 1) as nat).map_values(
            |c: Seq<u32>| seq![s[0]] + c,
        );
        assert forall|ci: int, ei: int|
            0 <= ci < spec_combos(s, k).len() && 0 <= ei < spec_combos(s, k)[ci].len() implies s
            .contains(#[trigger] spec_combos(s, k)[ci][ei]) by {
            let x = spec_combos(s, k)[ci][ei];
            if ci < first_block.len() {
                let c = spec_combos(rest, (k - 1) as nat)[ci];
                assert(spec_combos(s, k)[ci] == seq![s[0]] + c);
                if ei == 0 {
                    assert(x == s[0]);
                } else {
                    assert(x == c[ei - 1]);
                    assert(rest.contains(x));
                    let a = choose|a: int| 0 <= a < rest.len() && rest[a] == x;
                    assert(s[a + 1] == x);
                }
            } else {
                let c = spec_combos(rest, k)[ci - first_block.len()];
                assert(spec_combos(s, k)[ci] == c);
                assert(rest.contains(x));
                let a = choose|a: int| 0 <= a < rest.len() && rest[a] == x;
                assert(s[a + 1] == x);
            }
        }
    }
}

/// Relies on itertools' `Itertools::combinations`: every `k`-element
/// combination of the entries, each in input order, the combinations in
/// lexicographic order of positions.
#[verifier::external_body]
fn combinations_of(v: &Vec<u32>, k: usize) -> (r: Vec<Vec<u32>>)
    ensures
        r@.map_values(|c: Vec<u32>| c@) == spec_combos(v@, k as nat),
{
    v.iter().copied().combinations(k).collect()
}

/// The rows of a table.
pub open spec fn table_views(t: Seq<Vec<i32>>) -> Seq<Seq<i32>> {
    t.map_values(|r: Vec<i32>| r@)
}

/// Sum of the exponents of one combination, modulo `q1`: the logarithm of
/// the product of the corresponding field elements.
pub open spec fn spec_log_sum(c: Seq<u32>, q1: int) -> int
    decreases c.len(),
{
    if c.len() == 0 {
        0
    } else {
        (spec_log_sum(c.drop_last(), q1) + c.last()) % q1
    }
}

/// Folds the products of all combinations through the addition table,
/// starting from the zero element (-1).
pub open spec fn spec_coeff_fold(cs: Seq<Seq<u32>>, q1: int, table: Seq<Seq<i32>>) -> int
    decreases cs.len(),
{
    if cs.len() == 0 {
        -1
    } else {
        let prev = spec_coeff_fold(cs.drop_last(), q1, table);
        let alpha = spec_log_sum(cs.last(), q1);
        if prev == -1 {
            alpha
        } else {
            table[prev][alpha] as int
        }
    }
}

/// The minimal polynomial of a layer, leftmost bit = highest degree:
/// positions 0 and `deg` carry 1; position `i` carries 1 exactly when the
/// sum over all `i`-element combinations of the layer is non-zero in the
/// field.
pub open spec fn spec_min_pol(layer: Seq<u32>, q1: int, table: Seq<Seq<i32>>) -> Seq<bool> {
    Seq::new(
        layer.len() + 1,
        |i: int|
            i == 0 || i == layer.len() || spec_coeff_fold(
                spec_combos(layer, i as nat),
                q1,
                table,
            ) != -1,
    )
}

/// Computes the minimal polynomial of a layer of exponents over the
/// addition table; see `spec_min_pol`.
pub fn calculate_layer_min_pol(layer: &Vec<u32>, adding_table: &Vec<Vec<i32>>) -> (r: BitVec)
    requires
        2 <= adding_table@.len() <= 0x10000,
        forall|i: int|
            0 <= i < adding_table@.len() ==> #[trigger] adding_table@[i]@.len()
                == adding_table@.len(),
        forall|i: int, j: int|
            0 <= i < adding_table@.len() && 0 <= j < adding_table@.len() ==> -1
                <= #[trigger] adding_table@[i]@[j] < adding_table@.len(),
        layer@.len() + 1 <= MAX_BITS,
        forall|i: int| 0 <= i < layer@.len() ==> #[trigger] layer@[i] <= 0x10000,
    ensures
        r@ == spec_min_pol(layer@, adding_table@.len() - 1, table_views(adding_table@)),
{
    let ghost tviews = table_views(adding_table@);
    let ghost q1i = adding_table@.len() - 1;
    let tlen = adding_table.len();
    let q1 = tlen - 1;
    let deg = layer.len();
    let mut min_pol = BitVec::zeros(deg + 1);
    min_pol.set_bit(0, true);
    let ghost before_last = min_pol@;
    min_pol.set_bit(deg, true);
    let mut idx: usize = 1;
    while idx < deg
        invariant
            1 <= idx <= deg || (deg == 0 && idx == 1),
            deg == layer@.len(),
            deg + 1 <= MAX_BITS,
            tlen == adding_table@.len(),
            2 <= tlen <= 0x10000,
            q1 == tlen - 1,
            q1i == q1 as int,
            tviews == table_views(adding_table@),
            forall|i: int|
                0 <= i < adding_table@.len() ==> #[trigger] adding_table@[i]@.len()
                    == adding_table@.len(),
            forall|i: int, j: int|
                0 <= i < adding_table@.len() && 0 <= j < adding_table@.len() ==> -1
                    <= #[trigger] adding_table@[i]@[j] < adding_table@.len(),
            forall|i: int| 0 <= i < layer@.len() ==> #[trigger] layer@[i] <= 0x10000,
            min_pol@.len() == deg + 1,
            min_pol@[0] == true,
            min_pol@[deg as int] == true,
            forall|i: int|
                1 <= i < idx ==> #[trigger] min_pol@[i] == (spec_coeff_fold(
                    spec_combos(layer@, i as nat),
                    q1i,
                    tviews,
                ) != -1),
            forall|i: int| idx <= i < deg ==> #[trigger] min_pol@[i] == false,
        decreases deg - idx,
    {
        let combos = combinations_of(layer, idx);
        let ghost cviews = combos@.map_values(|c: Vec<u32>| c@);
        proof {
            lemma_combos_elements(layer@, idx as nat);
        }
        let mut cur: i32 = -1;
        let mut ci: usize = 0;
        while ci < combos.len()
            invariant
                ci <= combos@.len(),
                cviews == combos@.map_values(|c: Vec<u32>| c@),
                cviews == spec_combos(layer@, idx as nat),
                tlen == adding_table@.len(),
                2 <= tlen <= 0x10000,
                q1 == tlen - 1,
                q1i == q1 as int,
                tviews == table_views(adding_table@),
                forall|i: int|
                    0 <= i < adding_table@.len() ==> #[trigger] adding_table@[i]@.len()
                        == adding_table@.len(),
                forall|i: int, j: int|
                    0 <= i < adding_table@.len() && 0 <= j < adding_table@.len() ==> -1
                        <= #[trigger] adding_table@[i]@[j] < adding_table@.len(),
                forall|i: int| 0 <= i < layer@.len() ==> #[trigger] layer@[i] <= 0x10000,
                forall|a: int, b: int|
                    0 <= a < cviews.len() && 0 <= b < cviews[a].len() ==> layer@.contains(
                        #[trigger] cviews[a][b],
                    ),
                -1 <= cur < tlen,
                cur as int == spec_coeff_fold(cviews.subrange(0, ci as int), q1i, tviews),
            decreases combos@.len() - ci,
        {
            let c = &combos[ci];
            let mut alpha: usize = 0;
            let mut ei: usize = 0;
            proof {
                assert(cviews[ci as int] == c@);
                assert(c@.subrange(0, 0) =~= Seq::<u32>::empty());
            }
            while ei < c.len()
                invariant
                    ei <= c@.len(),
                    q1 == tlen - 1,
                    2 <= tlen <= 0x10000,
                    q1i == q1 as int,
                    forall|b: int| 0 <= b < c@.len() ==> (#[trigger] c@[b]) <= 0x10000,
                    alpha < q1 || (alpha == 0 && ei == 0),
                    alpha as int == spec_log_sum(c@.subrange(0, ei as int), q1i),
                decreases c@.len() - ei,
            {
                alpha = (alpha + (c[ei] as usize)) % q1;
                ei = ei + 1;
                proof {
                    assert(c@.subrange(0, ei as int).drop_last() =~= c@.subrange(0, ei - 1));
                    assert(c@.subrange(0, ei as int).last() == c@[ei - 1]);
                }
            }
            proof {
                assert(c@.subrange(0, c@.len() as int) =~= c@);
                assert(alpha as int == spec_log_sum(cviews[ci as int], q1i));
            }
            if cur == -1 {
                cur = alpha as i32;
            } else {
                cur = adding_table[cur as usize][alpha];
            }
            ci = ci + 1;
            proof {
                assert(cviews.subrange(0, ci as int).drop_last() =~= cviews.subrange(0, ci - 1));
                assert(cviews.subrange(0, ci as int).last() == cviews[ci - 1]);
                assert(tviews[cur as int] == adding_table@[cur as int]@ || true);
            }
        }
        proof {
            assert(cviews.subrange(0, cviews.len() as int) =~= cviews);
        }
        if cur != -1 {
            min_pol.set_bit(idx, true);
        }
        idx = idx + 1;
    }
    proof {
        assert(min_pol@ =~= spec_min_pol(layer@, q1i, tviews));
    }
    min_pol
}

/// Whether two bit-vectors hold the same bits; the index of the first
/// entry of `alphas` equal to `x`, or -1.
fn find_first_alpha(alphas: &Vec<BitVec>, x: &BitVec) -> (r: i32)
    requires
        alphas@.len() < 0x8000_0000,
    ensures
        r == first_match(views_of(alphas@), x@, 0),
{
    let ghost vs = views_of(alphas@);
    let mut k: usize = 0;
    while k < alphas.len()
        invariant
            k <= alphas@.len(),
            alphas@.len() < 0x8000_0000,
            vs == views_of(alphas@),
            first_match(vs, x@, k as int) == first_match(vs, x@, 0),
        decreases alphas@.len() - k,
    {
        if alphas[k].eq_bits(x) {
            proof {
                assert(vs[k as int] =~= x@);
            }
            return k as i32;
        }
        proof {
            assert(vs[k as int] != x@) by {
                if vs[k as int] == x@ {
                    assert(bits_of(alphas@[k as int]) =~= x@);
                }
            }
        }
        k = k + 1;
    }
    -1
}

/// The addition table over logarithms: entry (i, j) is the index of the
/// first power equal to the exclusive-or of powers i and j, or -1 when
/// that sum of field elements appears in no table entry (in particular
/// when it is the zero element).
pub fn create_adding_table(alphas: &Vec<BitVec>) -> (r: Vec<Vec<i32>>)
    requires
        alphas@.len() < 0x8000_0000,
        forall|i: int|
            0 <= i < alphas@.len() ==> #[trigger] bits_of(alphas@[i]).len() == bits_of(
                alphas@[0],
            ).len(),
    ensures
        r@.len() == alphas@.len(),
        forall|i: int| 0 <= i < r@.len() ==> #[trigger] r@[i]@.len() == alphas@.len(),
        forall|i: int, j: int|
            0 <= i < alphas@.len() && 0 <= j < alphas@.len() ==> #[trigger] r@[i]@[j]
                == first_match(
                views_of(alphas@),
                sxor(bits_of(alphas@[i]), bits_of(alphas@[j])),
                0,
            ),
{
    let ghost vs = views_of(alphas@);
    let alphas_size = alphas.len();
    let mut adding_table: Vec<Vec<i32>> = Vec::new();
    let mut row: usize = 0;
    while row < alphas_size
        invariant
            row <= alphas_size,
            alphas_size == alphas@.len(),
            alphas_size < 0x8000_0000,
            vs == views_of(alphas@),
            forall|i: int|
                0 <= i < alphas@.len() ==> #[trigger] bits_of(alphas@[i]).len() == bits_of(
                    alphas@[0],
                ).len(),
            adding_table@.len() == row,
            forall|i: int| 0 <= i < row ==> #[trigger] adding_table@[i]@.len() == alphas_size,
            forall|i: int, j: int|
                0 <= i < row && 0 <= j < alphas_size ==> #[trigger] adding_table@[i]@[j]
                    == first_match(vs, sxor(vs[i], vs[j]), 0),
        decreases alphas_size - row,
    {
        let mut row_vec: Vec<i32> = Vec::new();
        let mut col: usize = 0;
        while col < alphas_size
            invariant
                col <= alphas_size,
                row < alphas_size,
                alphas_size == alphas@.len(),
                alphas_size < 0x8000_0000,
                vs == views_of(alphas@),
                forall|i: int|
                    0 <= i < alphas@.len() ==> #[trigger] bits_of(alphas@[i]).len() == bits_of(
                        alphas@[0],
                    ).len(),
                row_vec@.len() == col,
                forall|j: int|
                    0 <= j < col ==> #[trigger] row_vec@[j] == first_match(
                        vs,
                        sxor(vs[row as int], vs[j]),
                        0,
                    ),
            decreases alphas_size - col,
        {
            let mut alphas_xor = alphas[row].clone_bits();
            xor_in_place(&mut alphas_xor, &alphas[col]);
            let idx = find_first_alpha(alphas, &alphas_xor);
            row_vec.push(idx);
            col = col + 1;
        }
        adding_table.push(row_vec);
        row = row + 1;
    }
    adding_table
}

// ------------------------------------------------------------------
// Generator polynomial and parameter validation.
// ------------------------------------------------------------------

/// The addition table of the field built from `p`, at the spec level.
pub open spec fn spec_adding_table(p: Seq<bool>) -> Seq<Seq<i32>> {
    let vs = spec_alphas(p, two_pow((p.len() - 1) as nat));
    Seq::new(
        vs.len(),
        |i: int| Seq::new(vs.len(), |j: int| first_match(vs, sxor(vs[i], vs[j]), 0) as i32),
    )
}

/// `first_match` stays within the table, and a non-negative result marks
/// a real match.
pub proof fn lemma_first_match(vs: Seq<Seq<bool>>, x: Seq<bool>, from: int)
    requires
        from >= 0,
    ensures
        -1 <= first_match(vs, x, from) < vs.len(),
        first_match(vs, x, from) >= 0 ==> vs[first_match(vs, x, from)] == x,
        first_match(vs, x, from) == -1 ==> forall|j: int| from <= j < vs.len() ==> vs[j] != x,
    decreases vs.len() - from,
{
    if from < vs.len() && vs[from] != x {
        lemma_first_match(vs, x, from + 1);
    }
}

/// Product of a list of polynomials; this entry point mirrors
/// `bitvec_operations::finite_multiply_bitvecs`.
pub fn finite_multiply_bitvecs_vec(vec: &Vec<BitVec>) -> (r: BitVec)
    requires
        crate::poly::total_len(views_of(vec@)) < MAX_BITS,
    ensures
        r@ == crate::poly::spec_multiply_list(views_of(vec@)),
{
    crate::bitvec_operations::finite_multiply_bitvecs(vec)
}

/// Assembles the generator polynomial: the product of the minimal
/// polynomials of the disjoint cosets picked for `t`.
pub fn create_gen_pol(degree: u32, t: u32, adding_table: &Vec<Vec<i32>>) -> (r: BitVec)
    requires
        2 <= adding_table@.len() <= 0x10000,
        forall|i: int|
            0 <= i < adding_table@.len() ==> #[trigger] adding_table@[i]@.len()
                == adding_table@.len(),
        forall|i: int, j: int|
            0 <= i < adding_table@.len() && 0 <= j < adding_table@.len() ==> -1
                <= #[trigger] adding_table@[i]@[j] < adding_table@.len(),
        t < 0x800,
    ensures
        exists|ls: Seq<Seq<u32>>|
            #[trigger] spec_disjoint_layers_ok(ls, t as int, adding_table@.len() - 1) && r@
                == crate::poly::spec_multiply_list(
                ls.map_values(
                    |l: Seq<u32>|
                        spec_min_pol(l, adding_table@.len() - 1, table_views(adding_table@)),
                ),
            ),
        r@.len() <= MAX_BITS,
        r@.len() >= 1,
        r@[0],
{
    let ghost q1i = adding_table@.len() - 1;
    let ghost tviews = table_views(adding_table@);
    let ghost mp = |l: Seq<u32>| spec_min_pol(l, q1i, tviews);
    let alphas_len = adding_table[0].len();
    let layers = get_n_disjunctive_layers(t, alphas_len);
    let ghost lsv = layer_views(layers@);
    let mut min_pols: Vec<BitVec> = Vec::new();
    let mut i: usize = 0;
    while i < layers.len()
        invariant
            i <= layers@.len(),
            lsv == layer_views(layers@),
            q1i == adding_table@.len() - 1,
            tviews == table_views(adding_table@),
            mp == (|l: Seq<u32>| spec_min_pol(l, q1i, tviews)),
            2 <= adding_table@.len() <= 0x10000,
            forall|a: int|
                0 <= a < adding_table@.len() ==> #[trigger] adding_table@[a]@.len()
                    == adding_table@.len(),
            forall|a: int, b: int|
                0 <= a < adding_table@.len() && 0 <= b < adding_table@.len() ==> -1
                    <= #[trigger] adding_table@[a]@[b] < adding_table@.len(),
            spec_disjoint_layers_ok(lsv, t as int, q1i),
            min_pols@.len() == i,
            views_of(min_pols@) == lsv.subrange(0, i as int).map_values(mp),
            crate::poly::total_len(views_of(min_pols@)) <= i * 0x10000,
        decreases layers@.len() - i,
    {
        proof {
            // This layer's entries lie below q1, so its length is bounded.
            assert(sorted_strict(lsv[i as int]));
            assert forall|a: int, b: int|
                0 <= a < b < lsv[i as int].len() implies lsv[i as int][a] != lsv[i as int][b] by {}
            assert forall|a: int| 0 <= a < lsv[i as int].len() implies (lsv[i as int][a] as int)
                < q1i by {
                assert(lsv[i as int].contains(lsv[i as int][a]));
            }
            lemma_distinct_bounded(lsv[i as int], q1i);
            assert forall|a: int| 0 <= a < layers@[i as int]@.len() implies #[trigger] layers@[i as int]@[a]
                <= 0x10000 by {
                assert(lsv[i as int][a] == layers@[i as int]@[a]);
                assert(lsv[i as int].contains(lsv[i as int][a]));
            }
        }
        let min_pol = calculate_layer_min_pol(&layers[i], adding_table);
        let ghost old_views = views_of(min_pols@);
        min_pols.push(min_pol);
        i = i + 1;
        proof {
            assert(views_of(min_pols@) =~= old_views.push(min_pol@));
            assert(views_of(min_pols@).drop_last() =~= old_views);
            assert(crate::poly::total_len(views_of(min_pols@)) == crate::poly::total_len(old_views)
                + min_pol@.len());
            assert(min_pol@.len() <= 0x10000);
            assert(views_of(min_pols@) =~= lsv.subrange(0, i as int).map_values(mp));
        }
    }
    proof {
        assert(lsv.subrange(0, lsv.len() as int) =~= lsv);
        assert(crate::poly::total_len(views_of(min_pols@)) < MAX_BITS);
    }
    let r = crate::bitvec_operations::finite_multiply_bitvecs(&min_pols);
    proof {
        // Every minimal polynomial is monic, so the product is too.
        assert forall|a: int|
            0 <= a < views_of(min_pols@).len() implies (#[trigger] views_of(min_pols@)[a]).len()
            >= 1 && views_of(min_pols@)[a][0] by {
            assert(views_of(min_pols@)[a] == spec_min_pol(lsv[a], q1i, tviews));
            assert(spec_min_pol(lsv[a], q1i, tviews)[0]);
        }
        crate::poly::lemma_multiply_list_monic(views_of(min_pols@));
        assert(spec_disjoint_layers_ok(lsv, t as int, adding_table@.len() - 1) && r@
            == crate::poly::spec_multiply_list(
            lsv.map_values(
                |l: Seq<u32>| spec_min_pol(l, adding_table@.len() - 1, table_views(adding_table@)),
            ),
        )) by {
            assert(lsv.map_values(
                |l: Seq<u32>|
                    spec_min_pol(l, adding_table@.len() - 1, table_views(adding_table@)),
            ) =~= lsv.map_values(mp));
        }
    }
    r
}

/// Whether `g` is the generator polynomial that the construction yields
/// for the primitive polynomial `p` and design distance parameter `t`.
pub open spec fn spec_is_gen_poly(g: Seq<bool>, p: Seq<bool>, t: int) -> bool {
    exists|ls: Seq<Seq<u32>>|
        #[trigger] spec_disjoint_layers_ok(ls, t, two_pow((p.len() - 1) as nat) - 1) && g
            == crate::poly::spec_multiply_list(
            ls.map_values(
                |l: Seq<u32>|
                    spec_min_pol(l, two_pow((p.len() - 1) as nat) - 1, spec_adding_table(p)),
            ),
        )
}

/// In a field built from a polynomial with set leading and constant
/// coefficients, every tabulated power is non-zero, keeps the
/// polynomial's width, and carries a cleared leading coordinate.
pub proof fn lemma_alphas_nonzero(p: Seq<bool>, count: nat)
    requires
        2 <= p.len(),
        p[0],
        p[p.len() - 1],
        count >= 1,
    ensures
        spec_alphas(p, count).len() == count,
        forall|a: int|
            0 <= a < count ==> (#[trigger] spec_alphas(p, count)[a]).len() == p.len() && !spec_alphas(
                p,
                count,
            )[a][0] && (exists|b: int|
                0 <= b < p.len() && spec_alphas(p, count)[a][b]),
    decreases count,
{
    let vs = spec_alphas(p, count);
    let ll = p.len() as int;
    if count == 1 {
        assert(vs[0] == spec_alpha0(p));
        assert(spec_alpha0(p)[ll - 1]);
        assert(!spec_alpha0(p)[0]);
    } else {
        lemma_alphas_nonzero(p, (count - 1) as nat);
        let prev = spec_alphas(p, (count - 1) as nat);
        assert(vs == prev.push(div_step(prev.last(), p, false)));
        assert forall|a: int|
            0 <= a < count implies (#[trigger] vs[a]).len() == p.len() && !vs[a][0] && (exists|
            b: int,
        |
            0 <= b < p.len() && vs[a][b]) by {
            if a < count - 1 {
                assert(vs[a] == prev[a]);
            } else {
                let alpha = prev.last();
                assert(alpha == prev[count - 2]);
                assert(alpha.len() == ll && !alpha[0]);
                let sh = shift_in(alpha, false);
                assert(sh.len() == ll);
                assert(sh[ll - 1] == false);
                assert(vs[a] == div_step(alpha, p, false));
                if sh[0] {
                    let res = sxor(sh, p);
                    assert(vs[a] == res);
                    assert(res[0] == (sh[0] != p[0]));
                    assert(!res[0]);
                    assert(res[ll - 1] == (sh[ll - 1] != p[ll - 1]));
                    assert(res[ll - 1]);
                } else {
                    assert(vs[a] == sh);
                    let b = choose|b: int| 0 <= b < p.len() && alpha[b];
                    assert(b >= 1);
                    assert(sh[b - 1] == alpha[b]);
                }
            }
        }
    }
}

/// Round trip through the addition table: a non-negative entry names the
/// tabulated power equal to the exclusive-or of powers `i` and `j`, and
/// the zero exclusive-or is always marked -1.
pub proof fn lemma_adding_table_round_trip(p: Seq<bool>, i: int, j: int)
    requires
        2 <= p.len() <= 17,
        p[0],
        p[p.len() - 1],
        0 <= i < two_pow((p.len() - 1) as nat),
        0 <= j < two_pow((p.len() - 1) as nat),
    ensures
        ({
            let vs = spec_alphas(p, two_pow((p.len() - 1) as nat));
            let entry = spec_adding_table(p)[i][j] as int;
            &&& -1 <= entry < vs.len()
            &&& (entry >= 0 ==> vs[entry] == sxor(vs[i], vs[j]))
            &&& ((forall|b: int|
                0 <= b < sxor(vs[i], vs[j]).len() ==> !sxor(vs[i], vs[j])[b]) ==> entry == -1)
        }),
{
    let count = two_pow((p.len() - 1) as nat);
    let vs = spec_alphas(p, count);
    let x = sxor(vs[i], vs[j]);
    lemma_two_pow_mono(1, (p.len() - 1) as nat);
    lemma_two_pow_mono((p.len() - 1) as nat, 16);
    reveal_with_fuel(two_pow, 17);
    assert(two_pow(1) == 2);
    assert(two_pow(16) == 0x10000);
    lemma_alphas_nonzero(p, count);
    assert(vs.len() == count);
    let fm = first_match(vs, x, 0);
    lemma_first_match(vs, x, 0);
    assert(spec_adding_table(p)[i][j] == fm as i32);
    assert(vs[i].len() == p.len());
    assert(x.len() == p.len());
    if (forall|b: int| 0 <= b < x.len() ==> !x[b]) && fm >= 0 {
        assert(vs[fm] == x);
        let b = choose|b: int| 0 <= b < p.len() && vs[fm][b];
        assert(x[b]);
        assert(false);
    }
}

/// The converse direction of the table round trip holds under
/// primitivity, stated here directly as completeness of the enumeration:
/// when every non-zero vector of the field's width (with its leading
/// coordinate cleared, as every tabulated power has) occurs among the
/// powers, a -1 entry can only mark the zero sum.
pub proof fn lemma_adding_table_complete(p: Seq<bool>, i: int, j: int)
    requires
        2 <= p.len() <= 17,
        p[0],
        p[p.len() - 1],
        0 <= i < two_pow((p.len() - 1) as nat),
        0 <= j < two_pow((p.len() - 1) as nat),
        forall|v: Seq<bool>|
            v.len() == p.len() && !v[0] && (exists|b: int| 0 <= b < v.len() && v[b])
                ==> #[trigger] spec_alphas(p, two_pow((p.len() - 1) as nat)).contains(v),
    ensures
        ({
            let vs = spec_alphas(p, two_pow((p.len() - 1) as nat));
            spec_adding_table(p)[i][j] as int == -1 ==> (forall|b: int|
                0 <= b < sxor(vs[i], vs[j]).len() ==> !(#[trigger] sxor(vs[i], vs[j])[b]))
        }),
{
    let count = two_pow((p.len() - 1) as nat);
    let vs = spec_alphas(p, count);
    lemma_two_pow_mono(1, (p.len() - 1) as nat);
    lemma_two_pow_mono((p.len() - 1) as nat, 16);
    reveal_with_fuel(two_pow, 17);
    assert(two_pow(1) == 2);
    assert(two_pow(16) == 0x10000);
    lemma_alphas_nonzero(p, count);
    let x = sxor(vs[i], vs[j]);
    let fm = first_match(vs, x, 0);
    lemma_first_match(vs, x, 0);
    assert(spec_adding_table(p)[i][j] == fm as i32);
    if spec_adding_table(p)[i][j] as int == -1 {
        assert(fm == -1);
        assert forall|b: int| 0 <= b < x.len() implies !x[b] by {
            if x[b] {
                assert(x.len() == p.len());
                assert(!x[0]) by {
                    assert(x[0] == (vs[i][0] != vs[j][0]));
                }
                assert(vs.contains(x));
                let kk = choose|kk: int| 0 <= kk < vs.len() && vs[kk] == x;
                assert(vs[kk] != x);
                assert(false);
            }
        }
    }
}

/// The addition table is symmetric, and its diagonal marks the zero
/// element: a field element added to itself cancels.
pub proof fn lemma_adding_table_symmetry(p: Seq<bool>, i: int, j: int)
    requires
        2 <= p.len() <= 17,
        p[0],
        p[p.len() - 1],
        0 <= i < two_pow((p.len() - 1) as nat),
        0 <= j < two_pow((p.len() - 1) as nat),
    ensures
        spec_adding_table(p)[i][j] == spec_adding_table(p)[j][i],
        spec_adding_table(p)[i][i] == -1,
{
    let count = two_pow((p.len() - 1) as nat);
    let vs = spec_alphas(p, count);
    lemma_two_pow_mono(1, (p.len() - 1) as nat);
    reveal_with_fuel(two_pow, 3);
    assert(two_pow(1) == 2);
    lemma_alphas_nonzero(p, count);
    assert(sxor(vs[i], vs[j]) =~= sxor(vs[j], vs[i]));
    assert(spec_adding_table(p)[i][j] == first_match(vs, sxor(vs[i], vs[j]), 0) as i32);
    assert(spec_adding_table(p)[j][i] == first_match(vs, sxor(vs[j], vs[i]), 0) as i32);
    let d = sxor(vs[i], vs[i]);
    assert(forall|b: int| 0 <= b < d.len() ==> !d[b]);
    let fm = first_match(vs, d, 0);
    lemma_first_match(vs, d, 0);
    if fm >= 0 {
        assert(vs[fm] == d);
        let b = choose|b: int| 0 <= b < p.len() && vs[fm][b];
        assert(d[b]);
        assert(false);
    }
}

/// Under the intended field shape the generator polynomial is unique:
/// any two bit sequences conforming to `spec_is_gen_poly` for the same
/// primitive polynomial and `t` are equal.
pub proof fn lemma_gen_poly_unique(g1: Seq<bool>, g2: Seq<bool>, p: Seq<bool>, t: int)
    requires
        2 <= p.len() <= 17,
        0 <= t,
        2 * t < two_pow((p.len() - 1) as nat) - 1,
        spec_is_gen_poly(g1, p, t),
        spec_is_gen_poly(g2, p, t),
    ensures
        g1 == g2,
{
    let m = (p.len() - 1) as nat;
    lemma_two_pow_mono(1, m);
    lemma_two_pow_mono(m, 16);
    reveal_with_fuel(two_pow, 17);
    assert(two_pow(1) == 2);
    assert(two_pow(16) == 0x10000);
    let q1 = two_pow(m) - 1;
    // The group order is odd: 2^m is even for m >= 1.
    assert(two_pow(m) == 2 * two_pow((m - 1) as nat));
    let xh = two_pow((m - 1) as nat) as int;
    assert(q1 == (xh - 1) * 2 + 1) by (nonlinear_arith)
        requires
            q1 == 2 * xh - 1,
    ;
    vstd::arithmetic::div_mod::lemma_fundamental_div_mod_converse_mod(q1, 2, xh - 1, 1);
    assert(q1 % 2 == 1);
    let ls1 = choose|ls: Seq<Seq<u32>>|
        #[trigger] spec_disjoint_layers_ok(ls, t, two_pow((p.len() - 1) as nat) - 1) && g1
            == crate::poly::spec_multiply_list(
            ls.map_values(
                |l: Seq<u32>|
                    spec_min_pol(l, two_pow((p.len() - 1) as nat) - 1, spec_adding_table(p)),
            ),
        );
    let ls2 = choose|ls: Seq<Seq<u32>>|
        #[trigger] spec_disjoint_layers_ok(ls, t, two_pow((p.len() - 1) as nat) - 1) && g2
            == crate::poly::spec_multiply_list(
            ls.map_values(
                |l: Seq<u32>|
                    spec_min_pol(l, two_pow((p.len() - 1) as nat) - 1, spec_adding_table(p)),
            ),
        );
    lemma_disjoint_layers_unique(ls1, ls2, t, q1);
    assert(ls1 == ls2);
}

/// Whether a parameter set is consistent: both polynomials are present
/// with set leading coefficients, and the generator's degree equals
/// `n - k`.
pub open spec fn spec_params_valid(n: int, k: int, g: Seq<bool>, p: Seq<bool>) -> bool {
    &&& g.len() > 0
    &&& g[0]
    &&& p.len() > 0
    &&& p[0]
    &&& n == k + g.len() - 1
}

/// Checks a parameter set; see `spec_params_valid`.
pub fn validate_params(n: i32, k: i32, gen_poly: &BitVec, prime_poly: &BitVec) -> (r: Result<
    (),
    BchError,
>)
    ensures
        r is Ok <==> spec_params_valid(n as int, k as int, gen_poly@, prime_poly@),
        r is Err ==> r->Err_0 == BchError::InvalidParameters,
{
    let glen = gen_poly.len();
    let plen = prime_poly.len();
    if glen == 0 || plen == 0 {
        return Err(BchError::InvalidParameters);
    }
    if !gen_poly.get_bit(0) || !prime_poly.get_bit(0) {
        return Err(BchError::InvalidParameters);
    }
    let diff: i64 = (n as i64) - (k as i64) + 1;
    if diff < 1 {
        return Err(BchError::InvalidParameters);
    }
    if (diff as u64) != (glen as u64) {
        return Err(BchError::InvalidParameters);
    }
    Ok(())
}

/// Builds the field tables from the primitive polynomial and assembles
/// the generator polynomial from them.
pub fn get_gen_poly(degree: i32, t: i32, prime_poly: &BitVec) -> (r: BitVec)
    requires
        2 <= prime_poly@.len() <= 17,
        0 <= t < 0x800,
    ensures
        spec_is_gen_poly(r@, prime_poly@, t as int),
        r@.len() <= MAX_BITS,
        r@.len() >= 1,
        r@[0],
{
    let (gen_poly, _adding_table) = get_gen_poly_and_adding_table(degree, t, prime_poly);
    gen_poly
}

/// As `get_gen_poly`, returning the addition table as well.
pub fn get_gen_poly_and_adding_table(degree: i32, t: i32, prime_poly: &BitVec) -> (r: (
    BitVec,
    Vec<Vec<i32>>,
))
    requires
        2 <= prime_poly@.len() <= 17,
        0 <= t < 0x800,
    ensures
        table_views(r.1@) == spec_adding_table(prime_poly@),
        r.1@.len() == two_pow((prime_poly@.len() - 1) as nat),
        forall|i: int| 0 <= i < r.1@.len() ==> #[trigger] r.1@[i]@.len() == r.1@.len(),
        forall|i: int, j: int|
            0 <= i < r.1@.len() && 0 <= j < r.1@.len() ==> -1 <= #[trigger] r.1@[i]@[j]
                < r.1@.len(),
        spec_is_gen_poly(r.0@, prime_poly@, t as int),
        r.0@.len() <= MAX_BITS,
        r.0@.len() >= 1,
        r.0@[0],
{
    let ghost p = prime_poly@;
    let ghost m = (p.len() - 1) as nat;
    let alphas = calculate_alphas(prime_poly);
    proof {
        lemma_two_pow_mono(m, 16);
        reveal_with_fuel(two_pow, 17);
        assert(two_pow(16) == 0x10000);
        lemma_two_pow_mono(1, m);
        assert(two_pow(1) == 2);
    }
    let adding_table = create_adding_table(&alphas);
    let ghost vs = spec_alphas(p, two_pow(m));
    proof {
        // The computed table is the spec-level addition table.
        assert forall|i: int, j: int|
            0 <= i < adding_table@.len() && 0 <= j < adding_table@.len()
                implies #[trigger] adding_table@[i]@[j] == first_match(
                vs,
                sxor(vs[i], vs[j]),
                0,
            ) as i32 by {
            assert(adding_table@[i]@[j] as int == first_match(vs, sxor(vs[i], vs[j]), 0));
        }
        assert(table_views(adding_table@) =~~= spec_adding_table(p));
        assert forall|i: int, j: int|
            0 <= i < adding_table@.len() && 0 <= j < adding_table@.len() implies -1
                <= #[trigger] adding_table@[i]@[j] < adding_table@.len() by {
            lemma_first_match(vs, sxor(vs[i], vs[j]), 0);
        }
    }
    let gen_poly = create_gen_pol((prime_poly.len() - 1) as u32, t as u32, &adding_table);
    proof {
        let ls = choose|ls: Seq<Seq<u32>>|
            #[trigger] spec_disjoint_layers_ok(ls, t as int, adding_table@.len() - 1) && gen_poly@
                == crate::poly::spec_multiply_list(
                ls.map_values(
                    |l: Seq<u32>|
                        spec_min_pol(l, adding_table@.len() - 1, table_views(adding_table@)),
                ),
            );
        assert(ls.map_values(
            |l: Seq<u32>|
                spec_min_pol(l, adding_table@.len() - 1, table_views(adding_table@)),
        ) =~= ls.map_values(
            |l: Seq<u32>| spec_min_pol(l, two_pow(m) - 1, spec_adding_table(p)),
        ));
        assert(spec_disjoint_layers_ok(ls, t as int, two_pow(m) - 1) && gen_poly@
            == crate::poly::spec_multiply_list(
            ls.map_values(|l: Seq<u32>| spec_min_pol(l, two_pow(m) - 1, spec_adding_table(p))),
        ));
        assert(spec_is_gen_poly(gen_poly@, p, t as int));
    }
    (gen_poly, adding_table)
}

} // verus!
