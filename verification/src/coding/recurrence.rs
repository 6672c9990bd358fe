//! The error locator polynomial as a linear recurrence for the syndromes.
//!
//! A polynomial Λ(x) = 1 + Λ<sub>1</sub>x + ··· + Λ<sub>L</sub>x<sup>L</sup> is a
//! recurrence of length L for the syndromes if s<sub>k</sub> + Λ<sub>1</sub>s<sub>k-1</sub>
//! + ··· + Λ<sub>L</sub>s<sub>k-L</sub> = 0 for every k above L, which is to say that the
//! product Λ(x)(1 + xs(x)) has no term x<sup>k</sup> for these k. The iteration keeps
//! p(x) and q(x) such that p(x) is a recurrence, times a power of x, and q(x) holds the
//! terms of the product that are still to be cancelled.

use vstd::prelude::*;
use crate::coding::algebra::{
    lemma_add_cancels, lemma_add_interchange, lemma_add_laws, lemma_inverse,
    lemma_mul_associative, lemma_mul_basics, lemma_mul_distributive,
};
use crate::coding::bmcf::{
    error_locator, locator_run, locator_start, locator_step, LocatorState,
};
use crate::coding::galois::{gf_add, gf_div, gf_mul};
use crate::coding::polynomial::{degree_below, poly_add, poly_scale, poly_shift};
use crate::coding::reed_solomon::systematic::in_field;

verus! {

/// The coefficient of x<sup>k</sup> in 1 + xs(x), for the syndrome polynomial s(x) with
/// `t2` syndromes.
pub open spec fn extended_syndrome(syn: Seq<u8>, t2: nat, k: int) -> u8 {
    if k == 0 {
        1
    } else if 1 <= k <= t2 {
        syn[k - 1]
    } else {
        0
    }
}

/// The coefficients of 1 + xs(x) as a function of the degree.
pub open spec fn extended_syndromes(syn: Seq<u8>, t2: nat) -> spec_fn(int) -> u8 {
    |k: int| extended_syndrome(syn, t2, k)
}

/// The coefficients of the polynomial b(x) as a function of the degree, zero outside the
/// polynomial.
pub open spec fn coefficients(b: Seq<u8>) -> spec_fn(int) -> u8 {
    |k: int| if 0 <= k < b.len() { b[k] } else { 0u8 }
}

/// Whether every value of the function is a field element.
pub open spec fn values_in_field(f: spec_fn(int) -> u8) -> bool {
    forall|k: int| #[trigger] f(k) < 64
}

/// The sum of the products a<sub>j</sub>f(k - j) for j below `m`.
pub open spec fn product_sum(a: Seq<u8>, f: spec_fn(int) -> u8, k: int, m: nat) -> u8
    decreases m,
{
    if m == 0 {
        0
    } else {
        gf_add(product_sum(a, f, k, (m - 1) as nat), gf_mul(a[m - 1], f(k - (m - 1))))
    }
}

/// The coefficient of x<sup>k</sup> in the product of a(x) and the series with the
/// coefficients f.
pub open spec fn product_coef(a: Seq<u8>, f: spec_fn(int) -> u8, k: int) -> u8 {
    product_sum(a, f, k, a.len())
}

/// Whether a(x) is a recurrence of length `len` for the first `upto` syndromes: its
/// constant term is 1, its degree is at most `len`, and a(x)(1 + xs(x)) has no term
/// x<sup>k</sup> for `len` < k ≤ `upto`.
pub open spec fn is_recurrence(a: Seq<u8>, syn: Seq<u8>, t2: nat, len: nat, upto: int) -> bool {
    &&& a.len() == syn.len()
    &&& 0 < a.len()
    &&& in_field(a)
    &&& a[0] == 1
    &&& forall|j: int| len < j < a.len() ==> #[trigger] a[j] == 0
    &&& forall|k: int|
        len < k <= upto ==> #[trigger] product_coef(a, extended_syndromes(syn, t2), k) == 0
}

/// The polynomial a(x) times x<sup>e</sup>, without the terms beyond the length of `a`.
pub open spec fn poly_raise(a: Seq<u8>, e: nat) -> Seq<u8> {
    Seq::new(a.len(), |j: int| if j >= e { a[j - e] } else { 0u8 })
}

/// The polynomial a(x) divided by x<sup>e</sup>, without the terms below x<sup>e</sup>.
pub open spec fn poly_lower(a: Seq<u8>, e: nat) -> Seq<u8> {
    Seq::new(a.len(), |j: int| if j + e < a.len() { a[j + e] } else { 0u8 })
}

/// Every coefficient of 1 + xs(x) is a field element.
pub proof fn lemma_extended_syndromes(syn: Seq<u8>, t2: nat)
    requires
        in_field(syn),
        t2 <= syn.len(),
    ensures
        values_in_field(extended_syndromes(syn, t2)),
{
    let f = extended_syndromes(syn, t2);
    assert forall|k: int| #[trigger] f(k) < 64 by {
        assert(f(k) == extended_syndrome(syn, t2, k));
    }
}

/// Every coefficient of a polynomial over the field is a field element.
pub proof fn lemma_coefficients(b: Seq<u8>)
    requires
        in_field(b),
    ensures
        values_in_field(coefficients(b)),
{
}

/// A sum of products of field elements is a field element.
pub proof fn lemma_product_sum_range(a: Seq<u8>, f: spec_fn(int) -> u8, k: int, m: nat)
    requires
        in_field(a),
        values_in_field(f),
        m <= a.len(),
    ensures
        product_sum(a, f, k, m) < 64,
    decreases m,
{
    if m > 0 {
        lemma_product_sum_range(a, f, k, (m - 1) as nat);
        lemma_mul_basics(a[m - 1], f(k - (m - 1)));
        lemma_add_laws(product_sum(a, f, k, (m - 1) as nat), gf_mul(a[m - 1], f(k - (m - 1))), 0);
    }
}

/// Terms with a zero factor add nothing to the sum.
pub proof fn lemma_product_sum_zeros(
    a: Seq<u8>,
    f: spec_fn(int) -> u8,
    k: int,
    lo: nat,
    m: nat,
)
    requires
        lo <= m <= a.len(),
        forall|j: int| lo <= j < m ==> #[trigger] a[j] == 0 || f(k - j) == 0,
        in_field(a),
        values_in_field(f),
    ensures
        product_sum(a, f, k, m) == product_sum(a, f, k, lo),
    decreases m,
{
    if m > lo {
        lemma_product_sum_zeros(a, f, k, lo, (m - 1) as nat);
        assert(a[m - 1] == 0 || f(k - (m - 1)) == 0);
        lemma_mul_basics(a[m - 1], f(k - (m - 1)));
        lemma_add_laws(product_sum(a, f, k, lo), 0, 0);
    }
}

/// The sum for a sum of polynomials is the sum of their sums.
pub proof fn lemma_product_sum_add(
    a: Seq<u8>,
    b: Seq<u8>,
    f: spec_fn(int) -> u8,
    k: int,
    m: nat,
)
    requires
        a.len() == b.len(),
        in_field(a),
        in_field(b),
        values_in_field(f),
        m <= a.len(),
    ensures
        product_sum(poly_add(a, b), f, k, m) == gf_add(
            product_sum(a, f, k, m),
            product_sum(b, f, k, m),
        ),
    decreases m,
{
    if m == 0 {
        lemma_add_laws(0, 0, 0);
    } else {
        lemma_product_sum_add(a, b, f, k, (m - 1) as nat);
        let s = f(k - (m - 1));
        lemma_mul_distributive(s, a[m - 1], b[m - 1]);
        lemma_add_interchange(
            product_sum(a, f, k, (m - 1) as nat),
            product_sum(b, f, k, (m - 1) as nat),
            gf_mul(a[m - 1], s),
            gf_mul(b[m - 1], s),
        );
    }
}

/// The sum for a multiple of a polynomial is the multiple of its sum.
pub proof fn lemma_product_sum_scale(
    a: Seq<u8>,
    c: u8,
    f: spec_fn(int) -> u8,
    k: int,
    m: nat,
)
    requires
        in_field(a),
        c < 64,
        values_in_field(f),
        m <= a.len(),
    ensures
        product_sum(poly_scale(a, c), f, k, m) == gf_mul(product_sum(a, f, k, m), c),
    decreases m,
{
    if m == 0 {
        lemma_mul_basics(0, c);
    } else {
        lemma_product_sum_scale(a, c, f, k, (m - 1) as nat);
        let s = f(k - (m - 1));
        lemma_product_sum_range(a, f, k, (m - 1) as nat);
        // (ac)s = (as)c
        lemma_mul_associative(a[m - 1], c, s);
        lemma_mul_basics(c, s);
        lemma_mul_associative(a[m - 1], s, c);
        lemma_mul_basics(a[m - 1], s);
        lemma_mul_distributive(c, product_sum(a, f, k, (m - 1) as nat), gf_mul(a[m - 1], s));
    }
}

/// The sum for a polynomial times x<sup>e</sup> is the sum of the polynomial for the
/// coefficient e places down.
pub proof fn lemma_product_sum_raise(
    a: Seq<u8>,
    e: nat,
    f: spec_fn(int) -> u8,
    k: int,
    m: nat,
)
    requires
        in_field(a),
        values_in_field(f),
        m <= a.len(),
    ensures
        product_sum(poly_raise(a, e), f, k, m) == (if m >= e {
            product_sum(a, f, k - e, (m - e) as nat)
        } else {
            0
        }),
    decreases m,
{
    if m > 0 {
        lemma_product_sum_raise(a, e, f, k, (m - 1) as nat);
        lemma_mul_basics(0, f(k - (m - 1)));
        lemma_add_laws(0, 0, 0);
        if m > e {
            assert(k - (m - 1) == (k - e) - (m - e - 1));
        } else if m == e {
            assert(product_sum(a, f, k - e, 0) == 0);
        }
    }
}

/// The coefficients of the product of a(x) + cx<sup>e</sup>b(x) and a series are those of
/// the product of a(x) and the series plus c times those of the product of b(x) and the
/// series, e places down.
pub proof fn lemma_product_coef_combined(
    a: Seq<u8>,
    b: Seq<u8>,
    e: nat,
    c: u8,
    f: spec_fn(int) -> u8,
    k: int,
)
    requires
        a.len() == b.len(),
        in_field(a),
        in_field(b),
        c < 64,
        values_in_field(f),
        e <= a.len(),
        forall|j: int| a.len() - e <= j < a.len() ==> #[trigger] b[j] == 0,
    ensures
        product_coef(poly_add(a, poly_scale(poly_raise(b, e), c)), f, k) == gf_add(
            product_coef(a, f, k),
            gf_mul(product_coef(b, f, k - e), c),
        ),
{
    let n = a.len();
    let raised = poly_raise(b, e);
    assert(in_field(raised));
    let scaled = poly_scale(raised, c);
    assert(in_field(scaled)) by {
        assert forall|j: int| 0 <= j < n implies #[trigger] scaled[j] < 64 by {
            lemma_mul_basics(raised[j], c);
        }
    }
    lemma_product_sum_add(a, scaled, f, k, n);
    lemma_product_sum_scale(raised, c, f, k, n);
    lemma_product_sum_raise(b, e, f, k, n);
    lemma_product_sum_zeros(b, f, k - e, (n - e) as nat, n);
}

/// The coefficients of a(x)(1 + xs(x)) beyond the degree of the product are zero.
pub proof fn lemma_product_coef_high(a: Seq<u8>, syn: Seq<u8>, t2: nat, k: int, deg: nat)
    requires
        in_field(a),
        in_field(syn),
        t2 <= syn.len(),
        forall|j: int| deg < j < a.len() ==> #[trigger] a[j] == 0,
        k > deg + t2,
    ensures
        product_coef(a, extended_syndromes(syn, t2), k) == 0,
{
    let f = extended_syndromes(syn, t2);
    lemma_extended_syndromes(syn, t2);
    lemma_product_sum_zeros(a, f, k, 0, a.len());
}

/// Where the iteration stands after `i` steps: p(x) is a recurrence of length `len` for
/// the first `i` syndromes, times x<sup>2t-i</sup>, and q(x) holds the terms of the
/// product of the recurrence and 1 + xs(x) from x<sup>i+1</sup> on. The saved polynomials
/// are the same for an earlier step `z`, with a term to cancel, and the lengths of the
/// two recurrences add up to `z` + 1. The degree terms stand for twice the number of
/// syndromes that each recurrence has to spare.
pub open spec fn locator_invariant(
    s: LocatorState,
    syn: Seq<u8>,
    t2: nat,
    i: nat,
    z: int,
    len: nat,
    len_saved: nat,
) -> bool {
    let n = syn.len();
    let f = extended_syndromes(syn, t2);
    let lam = poly_lower(s.p_cur, (t2 - i) as nat);
    let lam_saved = poly_lower(s.p_saved, (t2 - z) as nat);
    &&& i <= t2
    &&& -1 <= z < i
    &&& len + len_saved == z + 1
    &&& s.p_cur.len() == n
    &&& s.p_saved.len() == n
    &&& s.q_cur.len() == n
    &&& s.q_saved.len() == n
    &&& in_field(s.p_cur)
    &&& in_field(s.p_saved)
    &&& in_field(s.q_cur)
    &&& in_field(s.q_saved)
    &&& forall|j: int| 0 <= j < t2 - i ==> #[trigger] s.p_cur[j] == 0
    &&& forall|j: int| 0 <= j < t2 - z ==> #[trigger] s.p_saved[j] == 0
    &&& is_recurrence(lam, syn, t2, len, i as int)
    &&& is_recurrence(lam_saved, syn, t2, len_saved, z)
    &&& forall|j: int|
        0 <= j < n ==> #[trigger] s.q_cur[j] == product_coef(lam, f, i + 1 + j)
    &&& forall|j: int|
        0 <= j < n ==> #[trigger] s.q_saved[j] == product_coef(lam_saved, f, z + 1 + j)
    &&& s.q_saved[0] != 0
    &&& 2 * (i - len) + 1 <= s.deg_cur <= 2 * (i - len) + 2
    &&& 2 * (z - len_saved) + 1 <= s.deg_saved <= 2 * (z - len_saved) + 2
}

/// Whether `syn` is a syndrome polynomial with `t2` syndromes that the iteration can work
/// on.
pub open spec fn syndromes_fit(syn: Seq<u8>, t2: nat) -> bool {
    &&& 2 <= t2
    &&& 2 * t2 <= syn.len()
    &&& in_field(syn)
    &&& degree_below(syn, t2)
}

/// The iteration starts with the recurrence 1 of length 0.
proof fn lemma_locator_invariant_start(syn: Seq<u8>, t2: nat)
    requires
        syndromes_fit(syn, t2),
    ensures
        locator_invariant(locator_start(syn, t2), syn, t2, 0, -1, 0, 0),
{
    let n = syn.len();
    let f = extended_syndromes(syn, t2);
    let s = locator_start(syn, t2);
    let lam = poly_lower(s.p_cur, t2);
    let lam_saved = poly_lower(s.p_saved, t2 + 1);
    let init = seq![1u8] + syn.take(t2 as int);
    assert(in_field(s.q_saved)) by {
        assert forall|j: int| 0 <= j < n implies #[trigger] s.q_saved[j] < 64 by {
            if 1 <= j < init.len() {
                assert(init[j] == syn[j - 1]);
            }
        }
    }
    assert(lam =~= lam_saved);
    assert forall|k: int| product_coef(lam, f, k) == extended_syndrome(syn, t2, k) by {
        lemma_extended_syndromes(syn, t2);
        lemma_product_sum_zeros(lam, f, k, 1, n);
        reveal_with_fuel(product_sum, 2);
        assert(f(k - 0) == extended_syndrome(syn, t2, k));
        lemma_mul_basics(1, extended_syndrome(syn, t2, k));
        lemma_add_laws(extended_syndrome(syn, t2, k), 0, 0);
    }
    assert forall|j: int| 0 <= j < n implies
        #[trigger] s.q_saved[j] == product_coef(lam_saved, f, -1 + 1 + j) by {
        assert(product_coef(lam, f, j) == extended_syndrome(syn, t2, j));
        assert(init.len() == t2 + 1);
        if j == 0 {
            assert(init[0] == 1);
        } else if j < init.len() {
            assert(init[j] == syn[j - 1]);
        }
    }
    assert forall|j: int| 0 <= j < n implies
        #[trigger] s.q_cur[j] == product_coef(lam, f, 0 + 1 + j) by {
        assert(product_coef(lam, f, j + 1) == extended_syndrome(syn, t2, j + 1));
    }
    assert(is_recurrence(lam, syn, t2, 0, 0));
    assert(is_recurrence(lam_saved, syn, t2, 0, -1));
}

/// A step that only divides by x keeps the recurrence, which fits one more syndrome.
proof fn lemma_locator_invariant_reduce(
    s: LocatorState,
    syn: Seq<u8>,
    t2: nat,
    i: nat,
    z: int,
    len: nat,
    len_saved: nat,
)
    requires
        syndromes_fit(syn, t2),
        locator_invariant(s, syn, t2, i, z, len, len_saved),
        i < t2,
        s.q_cur[0] == 0,
    ensures
        locator_invariant(locator_step(s), syn, t2, i + 1, z, len, len_saved),
{
    let f = extended_syndromes(syn, t2);
    let n = syn.len();
    let i0 = i as int;
    let after = locator_step(s);
    let lam = poly_lower(s.p_cur, (t2 - i) as nat);
    let lam_after = poly_lower(after.p_cur, (t2 - (i + 1)) as nat);
    assert(lam_after =~= lam);
    assert(in_field(after.p_cur));
    assert(in_field(after.q_cur));
    assert(s.q_cur[0] == product_coef(lam, f, i0 + 1));
    assert(is_recurrence(lam, syn, t2, len, i0 + 1));
    assert forall|j: int| 0 <= j < n implies
        #[trigger] after.q_cur[j] == product_coef(lam_after, f, i0 + 2 + j) by {
        if j + 1 < n {
            assert(s.q_cur[j + 1] == product_coef(lam, f, i0 + 2 + j));
        } else {
            lemma_product_coef_high(lam, syn, t2, i0 + 2 + j, len);
        }
    }
}

/// A step that cancels the constant term of q(x) with the saved polynomials gives a
/// recurrence that fits one more syndrome. It is longer than the one before if that one was
/// no longer than half the number of syndromes that it fitted.
proof fn lemma_locator_invariant_transform(
    s: LocatorState,
    syn: Seq<u8>,
    t2: nat,
    i: nat,
    z: int,
    len: nat,
    len_saved: nat,
)
    requires
        syndromes_fit(syn, t2),
        locator_invariant(s, syn, t2, i, z, len, len_saved),
        i < t2,
        s.q_cur[0] != 0,
    ensures
        s.deg_cur >= s.deg_saved ==> 2 * len <= i + 1 && locator_invariant(
            locator_step(s),
            syn,
            t2,
            i + 1,
            i as int,
            (i + 1 - len) as nat,
            len,
        ),
        s.deg_cur < s.deg_saved ==> 2 * len >= i + 1 && locator_invariant(
            locator_step(s),
            syn,
            t2,
            i + 1,
            z,
            len,
            len_saved,
        ),
{
    let f = extended_syndromes(syn, t2);
    let n = syn.len();
    let i0 = i as int;
    let after = locator_step(s);
    let e = (i - z) as nat;
    let d = s.q_cur[0];
    let dh = s.q_saved[0];
    let m = gf_div(d, dh);
    let lam = poly_lower(s.p_cur, (t2 - i) as nat);
    let lamh = poly_lower(s.p_saved, (t2 - z) as nat);
    let lam_after = poly_lower(after.p_cur, (t2 - (i + 1)) as nat);
    let grown: nat = if s.deg_cur >= s.deg_saved { (i + 1 - len) as nat } else { len };
    lemma_inverse(d, dh);
    lemma_mul_basics(dh, m);
    lemma_mul_basics(0, m);
    lemma_add_laws(0, 0, 0);
    lemma_add_laws(1, 0, 0);
    lemma_add_cancels(d, d);
    assert(grown >= len && grown >= len_saved + e);
    assert(s.q_cur[0] == product_coef(lam, f, i0 + 1));
    assert(s.q_saved[0] == product_coef(lamh, f, z + 1 + 0));
    let summed_p = poly_add(s.p_cur, poly_scale(s.p_saved, m));
    let summed_q = poly_add(s.q_cur, poly_scale(s.q_saved, m));
    assert(after.p_cur == poly_shift(summed_p));
    assert(after.q_cur == poly_shift(summed_q));
    assert(in_field(summed_p)) by {
        assert forall|j: int| 0 <= j < n implies #[trigger] summed_p[j] < 64 by {
            lemma_mul_basics(s.p_saved[j], m);
            lemma_add_laws(s.p_cur[j], gf_mul(s.p_saved[j], m), 0);
        }
    }
    assert(in_field(summed_q)) by {
        assert forall|j: int| 0 <= j < n implies #[trigger] summed_q[j] < 64 by {
            lemma_mul_basics(s.q_saved[j], m);
            lemma_add_laws(s.q_cur[j], gf_mul(s.q_saved[j], m), 0);
        }
    }
    assert(in_field(after.p_cur));
    assert(in_field(after.q_cur));
    // The new recurrence is the old one plus a multiple of the saved one, moved up.
    let combined = poly_add(lam, poly_scale(poly_raise(lamh, e), m));
    assert(lam_after =~= combined) by {
        assert forall|a: int| 0 <= a < n implies lam_after[a] == combined[a] by {
            if a + (t2 - i) < n {
                if a < e {
                    assert(s.p_saved[a + (t2 - i)] == 0);
                }
            }
        }
    }
    assert forall|k: int| #[trigger] product_coef(lam_after, f, k) == gf_add(
        product_coef(lam, f, k),
        gf_mul(product_coef(lamh, f, k - e), m),
    ) by {
        lemma_extended_syndromes(syn, t2);
        lemma_product_coef_combined(lam, lamh, e, m, f, k);
    }
    assert(is_recurrence(lam_after, syn, t2, grown, i0 + 1)) by {
        assert(in_field(lam_after));
        assert(lam_after[0] == 1);
        assert forall|j: int| grown < j < n implies #[trigger] lam_after[j] == 0 by {
            assert(lam[j] == 0);
            assert(lamh[j - e] == 0);
        }
        assert forall|k: int| grown < k <= i0 + 1 implies #[trigger] product_coef(lam_after, f, k)
            == 0 by {
            if k <= i0 {
                assert(product_coef(lam, f, k) == 0);
                assert(product_coef(lamh, f, k - e) == 0);
            }
        }
    }
    assert forall|j: int| 0 <= j < n implies
        #[trigger] after.q_cur[j] == product_coef(lam_after, f, i0 + 2 + j) by {
        if j + 1 < n {
            assert(s.q_cur[j + 1] == product_coef(lam, f, i0 + 2 + j));
            assert(s.q_saved[j + 1] == product_coef(lamh, f, z + 2 + j));
            assert(i0 + 2 + j - e == z + 2 + j);
        } else {
            lemma_product_coef_high(lam_after, syn, t2, i0 + 2 + j, grown);
        }
    }
    assert forall|j: int| 0 <= j < t2 - (i + 1) implies #[trigger] after.p_cur[j] == 0 by {
        assert(s.p_cur[j + 1] == 0);
        assert(s.p_saved[j + 1] == 0);
    }
}

/// The step at which the saved polynomials were saved, the length of the recurrence, and
/// the length of the saved recurrence, after `i` steps of the iteration.
pub open spec fn recurrence_shape(syn: Seq<u8>, t2: nat, i: nat) -> (int, nat, nat)
    decreases i,
{
    if i == 0 {
        (-1, 0, 0)
    } else {
        let before = locator_run(locator_start(syn, t2), (i - 1) as nat);
        let (z, len, len_saved) = recurrence_shape(syn, t2, (i - 1) as nat);
        if before.q_cur[0] != 0 && before.deg_cur >= before.deg_saved {
            (i - 1, (i - len) as nat, len)
        } else {
            (z, len, len_saved)
        }
    }
}

/// The length of the recurrence that the error locator polynomial is.
pub open spec fn recurrence_length(syn: Seq<u8>, t2: nat) -> nat {
    recurrence_shape(syn, t2, t2).1
}

/// The invariant holds after every step.
pub proof fn lemma_locator_invariant(syn: Seq<u8>, t2: nat, i: nat)
    requires
        syndromes_fit(syn, t2),
        i <= t2,
    ensures
        locator_invariant(
            locator_run(locator_start(syn, t2), i),
            syn,
            t2,
            i,
            recurrence_shape(syn, t2, i).0,
            recurrence_shape(syn, t2, i).1,
            recurrence_shape(syn, t2, i).2,
        ),
    decreases i,
{
    if i == 0 {
        lemma_locator_invariant_start(syn, t2);
    } else {
        lemma_locator_invariant(syn, t2, (i - 1) as nat);
        let before = locator_run(locator_start(syn, t2), (i - 1) as nat);
        let (z, len, len_saved) = recurrence_shape(syn, t2, (i - 1) as nat);
        if before.q_cur[0] == 0 {
            lemma_locator_invariant_reduce(before, syn, t2, (i - 1) as nat, z, len, len_saved);
        } else {
            lemma_locator_invariant_transform(before, syn, t2, (i - 1) as nat, z, len, len_saved);
        }
    }
}

/// The error locator polynomial is a recurrence for the syndromes.
pub proof fn lemma_locator_is_recurrence(syn: Seq<u8>, t2: nat)
    requires
        syndromes_fit(syn, t2),
    ensures
        is_recurrence(error_locator(syn, t2), syn, t2, recurrence_length(syn, t2), t2 as int),
        recurrence_length(syn, t2) <= t2,
{
    lemma_locator_invariant(syn, t2, t2);
    let s = locator_run(locator_start(syn, t2), t2);
    assert(poly_lower(s.p_cur, 0) =~= s.p_cur);
}

/// The sum over j below `ma` of a<sub>j</sub> times the sum of the first `mb` products for
/// the coefficient of x<sup>k-j</sup> in the product of b(x) and a series: the coefficient
/// of x<sup>k</sup>
/// in the product of a(x), b(x) and the series with the coefficients f, as far as the terms
/// below `ma` of a(x) and below `mb` of b(x)
/// make it up.
pub open spec fn double_sum(
    a: Seq<u8>,
    b: Seq<u8>,
    f: spec_fn(int) -> u8,
    k: int,
    ma: nat,
    mb: nat,
) -> u8
    decreases ma,
{
    if ma == 0 {
        0
    } else {
        gf_add(
            double_sum(a, b, f, k, (ma - 1) as nat, mb),
            gf_mul(a[ma - 1], product_sum(b, f, k - (ma - 1), mb)),
        )
    }
}

/// A double sum of field elements is a field element.
proof fn lemma_double_sum_range(
    a: Seq<u8>,
    b: Seq<u8>,
    f: spec_fn(int) -> u8,
    k: int,
    ma: nat,
    mb: nat,
)
    requires
        in_field(a),
        in_field(b),
        values_in_field(f),
        ma <= a.len(),
        mb <= b.len(),
    ensures
        double_sum(a, b, f, k, ma, mb) < 64,
    decreases ma,
{
    if ma > 0 {
        lemma_double_sum_range(a, b, f, k, (ma - 1) as nat, mb);
        lemma_product_sum_range(b, f, k - (ma - 1), mb);
        lemma_mul_basics(a[ma - 1], product_sum(b, f, k - (ma - 1), mb));
        lemma_add_laws(
            double_sum(a, b, f, k, (ma - 1) as nat, mb),
            gf_mul(a[ma - 1], product_sum(b, f, k - (ma - 1), mb)),
            0,
        );
    }
}

/// One more term of b(x) adds that term times the sum for a(x) to the double sum.
proof fn lemma_double_sum_extend(
    a: Seq<u8>,
    b: Seq<u8>,
    f: spec_fn(int) -> u8,
    k: int,
    ma: nat,
    mb: nat,
)
    requires
        in_field(a),
        in_field(b),
        values_in_field(f),
        ma <= a.len(),
        0 < mb <= b.len(),
    ensures
        double_sum(a, b, f, k, ma, mb) == gf_add(
            double_sum(a, b, f, k, ma, (mb - 1) as nat),
            gf_mul(b[mb - 1], product_sum(a, f, k - (mb - 1), ma)),
        ),
    decreases ma,
{
    let c = b[mb - 1];
    if ma == 0 {
        lemma_mul_basics(c, 0);
        lemma_add_laws(0, 0, 0);
    } else {
        let ma1 = (ma - 1) as nat;
        let mb1 = (mb - 1) as nat;
        lemma_double_sum_extend(a, b, f, k, ma1, mb);
        let x = a[ma - 1];
        let st = f(k - (ma - 1) - (mb - 1));
        assert(k - (ma - 1) - (mb - 1) == k - (mb - 1) - (ma - 1));
        let rest = double_sum(a, b, f, k, ma1, mb1);
        let inner_b = product_sum(b, f, k - (ma - 1), mb1);
        let inner_a = product_sum(a, f, k - (mb - 1), ma1);
        lemma_double_sum_range(a, b, f, k, ma1, mb1);
        lemma_product_sum_range(b, f, k - (ma - 1), mb1);
        lemma_product_sum_range(a, f, k - (mb - 1), ma1);
        lemma_mul_basics(c, st);
        lemma_mul_basics(x, st);
        lemma_mul_basics(x, inner_b);
        lemma_mul_basics(c, inner_a);
        // x(cs) = c(xs)
        lemma_mul_associative(x, c, st);
        lemma_mul_basics(x, c);
        lemma_mul_associative(c, x, st);
        lemma_mul_distributive(x, inner_b, gf_mul(c, st));
        lemma_mul_distributive(c, inner_a, gf_mul(x, st));
        let p = gf_mul(x, inner_b);
        let q = gf_mul(c, inner_a);
        let r = gf_mul(x, gf_mul(c, st));
        lemma_mul_basics(x, gf_mul(c, st));
        // (rest + q) + (p + r) = (rest + p) + (q + r)
        lemma_add_interchange(rest, q, p, r);
        lemma_add_laws(rest, q, 0);
        lemma_add_laws(rest, p, 0);
    }
}

/// The two factors of a double sum can change places.
pub proof fn lemma_double_sum_swap(
    a: Seq<u8>,
    b: Seq<u8>,
    f: spec_fn(int) -> u8,
    k: int,
    ma: nat,
    mb: nat,
)
    requires
        in_field(a),
        in_field(b),
        values_in_field(f),
        ma <= a.len(),
        mb <= b.len(),
    ensures
        double_sum(a, b, f, k, ma, mb) == double_sum(b, a, f, k, mb, ma),
    decreases mb,
{
    if mb == 0 {
        lemma_double_sum_empty(a, b, f, k, ma);
    } else {
        lemma_double_sum_extend(a, b, f, k, ma, mb);
        lemma_double_sum_swap(a, b, f, k, ma, (mb - 1) as nat);
    }
}

/// A double sum over no terms of b(x) is zero.
proof fn lemma_double_sum_empty(a: Seq<u8>, b: Seq<u8>, f: spec_fn(int) -> u8, k: int, ma: nat)
    requires
        in_field(a),
        ma <= a.len(),
    ensures
        double_sum(a, b, f, k, ma, 0) == 0,
    decreases ma,
{
    if ma > 0 {
        lemma_double_sum_empty(a, b, f, k, (ma - 1) as nat);
        lemma_mul_basics(a[ma - 1], 0);
        lemma_add_laws(0, 0, 0);
    }
}

/// A double sum is its first term if every other term has a zero factor.
proof fn lemma_double_sum_first(
    a: Seq<u8>,
    b: Seq<u8>,
    f: spec_fn(int) -> u8,
    k: int,
    ma: nat,
)
    requires
        in_field(a),
        in_field(b),
        values_in_field(f),
        0 < ma <= a.len(),
        forall|j: int| 1 <= j < ma ==> #[trigger] a[j] == 0 || product_coef(b, f, k - j) == 0,
    ensures
        double_sum(a, b, f, k, ma, b.len()) == gf_mul(a[0], product_coef(b, f, k)),
    decreases ma,
{
    lemma_product_sum_range(b, f, k, b.len());
    lemma_mul_basics(a[0], product_coef(b, f, k));
    lemma_add_laws(gf_mul(a[0], product_coef(b, f, k)), 0, 0);
    if ma > 1 {
        lemma_double_sum_first(a, b, f, k, (ma - 1) as nat);
        assert(a[ma - 1] == 0 || product_coef(b, f, k - (ma - 1)) == 0);
        lemma_product_sum_range(b, f, k - (ma - 1), b.len());
        lemma_mul_basics(a[ma - 1], product_coef(b, f, k - (ma - 1)));
    } else {
        assert(double_sum(a, b, f, k, 0, b.len()) == 0);
    }
}

/// No recurrence that fits one more syndrome than the recurrence a(x) does is shorter than
/// the number of syndromes that a(x) fits, plus 1, less the length of a(x).
pub proof fn lemma_recurrence_bound(
    a: Seq<u8>,
    len: nat,
    b: Seq<u8>,
    other: nat,
    syn: Seq<u8>,
    t2: nat,
    i: int,
)
    requires
        in_field(syn),
        t2 <= syn.len(),
        0 <= i < t2,
        is_recurrence(a, syn, t2, len, i),
        product_coef(a, extended_syndromes(syn, t2), i + 1) != 0,
        is_recurrence(b, syn, t2, other, i + 1),
    ensures
        other >= i + 1 - len,
{
    let f = extended_syndromes(syn, t2);
    if other + len <= i {
        let n = syn.len();
        lemma_extended_syndromes(syn, t2);
        // Every term of a(x) meets a coefficient that b(x) cancels.
        assert forall|j: int| 1 <= j < n implies
            #[trigger] a[j] == 0 || product_coef(b, f, i + 1 - j) == 0 by {
            if j <= len {
                assert(product_coef(b, f, i + 1 - j) == 0);
            }
        }
        lemma_double_sum_first(a, b, f, i + 1, n);
        assert(product_coef(b, f, i + 1) == 0);
        lemma_mul_basics(a[0], 0);
        // Every term of b(x) but the first meets a coefficient that a(x) cancels.
        assert forall|j: int| 1 <= j < n implies
            #[trigger] b[j] == 0 || product_coef(a, f, i + 1 - j) == 0 by {
            if j <= other {
                assert(product_coef(a, f, i + 1 - j) == 0);
            }
        }
        lemma_double_sum_first(b, a, f, i + 1, n);
        lemma_product_sum_range(a, f, i + 1, n);
        lemma_mul_basics(1, product_coef(a, f, i + 1));
        lemma_double_sum_swap(a, b, f, i + 1, n, n);
        assert(false);
    }
}

/// The recurrence that the iteration has after any number of steps is no longer than any
/// recurrence that fits all the syndromes.
proof fn lemma_recurrence_shortest_upto(syn: Seq<u8>, t2: nat, b: Seq<u8>, other: nat, i: nat)
    requires
        syndromes_fit(syn, t2),
        is_recurrence(b, syn, t2, other, t2 as int),
        i <= t2,
    ensures
        recurrence_shape(syn, t2, i).1 <= other,
    decreases i,
{
    if i > 0 {
        let done = (i - 1) as nat;
        lemma_recurrence_shortest_upto(syn, t2, b, other, done);
        lemma_locator_invariant(syn, t2, done);
        let before = locator_run(locator_start(syn, t2), done);
        let (z, len, len_saved) = recurrence_shape(syn, t2, done);
        if before.q_cur[0] != 0 && before.deg_cur >= before.deg_saved {
            let lam = poly_lower(before.p_cur, (t2 - done) as nat);
            let f = extended_syndromes(syn, t2);
            assert(before.q_cur[0] == product_coef(lam, f, done as int + 1 + 0));
            lemma_recurrence_bound(lam, len, b, other, syn, t2, done as int);
        }
    }
}

/// The error locator polynomial is a shortest recurrence for the syndromes: no recurrence
/// that fits all the syndromes is shorter.
pub proof fn lemma_locator_is_shortest(syn: Seq<u8>, t2: nat, b: Seq<u8>, other: nat)
    requires
        syndromes_fit(syn, t2),
        is_recurrence(b, syn, t2, other, t2 as int),
    ensures
        recurrence_length(syn, t2) <= other,
{
    lemma_recurrence_shortest_upto(syn, t2, b, other, t2);
}

} // verus!
