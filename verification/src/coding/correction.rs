//! Why symbol errors up to half the distance of a code are corrected.
//!
//! For errors with the patterns e<sub>l</sub> in the terms x<sup>d<sub>l</sub></sup> of a
//! codeword, let X<sub>l</sub> = α<sup>d<sub>l</sub></sup>. The syndromes of the received
//! word are the sums of the e<sub>l</sub>X<sub>l</sub><sup>i</sup>, and the product Λ(x)
//! of the 1 + X<sub>l</sub>x is a recurrence for them. If there are no more errors than
//! half the number of syndromes, the iteration finds this Λ(x). Its roots are the inverses
//! of the X<sub>l</sub>, and Forney's formula gives the pattern e<sub>l</sub> at the root
//! that belongs to X<sub>l</sub>.

use vstd::prelude::*;
use crate::coding::algebra::{
    lemma_add_cancels, lemma_add_laws, lemma_mul_associative, lemma_mul_basics,
    lemma_mul_distributive, lemma_mul_powers, lemma_powers_equal,
};
use crate::coding::galois::{antilog, gf_add, gf_mul, lemma_antilog_range, lemma_antilog_step};
use crate::coding::evaluation::{
    lemma_deriv_times_linear, lemma_eval_add, lemma_eval_scale, lemma_eval_times_linear,
};
use crate::coding::polynomial::{
    degree_below, lemma_eval_one, lemma_eval_zero, poly_add, poly_deriv, poly_eval, poly_scale,
    poly_unit_power, poly_zero,
};
use crate::coding::recurrence::{
    extended_syndrome, extended_syndromes, is_recurrence, lemma_extended_syndromes,
    lemma_product_coef_combined, lemma_product_sum_range, lemma_product_sum_zeros, poly_raise,
    product_coef, product_sum,
};
use crate::coding::reed_solomon::systematic::in_field;

verus! {

/// Whether the errors, each a location and a pattern, are errors in a word of `n` symbols:
/// the locations are within the word and all different, and the patterns are nonzero field
/// elements.
pub open spec fn errors_valid(errs: Seq<(nat, u8)>, n: nat) -> bool {
    &&& n <= 63
    &&& forall|l: int| 0 <= l < errs.len() ==> (#[trigger] errs[l]).0 < n && 0 < errs[l].1 < 64
    &&& forall|l: int, j: int|
        0 <= l < errs.len() && 0 <= j < errs.len() && l != j ==> (#[trigger] errs[l]).0 != (
        #[trigger] errs[j]).0
}

/// The polynomial (1 + cx)p(x), without the terms beyond the length of `p`.
pub open spec fn times_linear(p: Seq<u8>, c: u8) -> Seq<u8> {
    poly_add(p, poly_scale(poly_raise(p, 1), c))
}

/// The product of the 1 + X<sub>l</sub>x for the first `m` errors.
pub open spec fn locator_of(errs: Seq<(nat, u8)>, n: nat, m: nat) -> Seq<u8>
    decreases m,
{
    if m == 0 {
        poly_unit_power(n, 0)
    } else {
        times_linear(locator_of(errs, n, (m - 1) as nat), antilog(errs[m - 1].0 as int))
    }
}

/// The sum, over the first `m` errors, of e<sub>l</sub>X<sub>l</sub> times the product of
/// the 1 + X<sub>j</sub>x for the others of these errors.
pub open spec fn evaluator_of(errs: Seq<(nat, u8)>, n: nat, m: nat) -> Seq<u8>
    decreases m,
{
    if m == 0 {
        poly_zero(n)
    } else {
        let x = antilog(errs[m - 1].0 as int);
        poly_add(
            times_linear(evaluator_of(errs, n, (m - 1) as nat), x),
            poly_scale(locator_of(errs, n, (m - 1) as nat), gf_mul(errs[m - 1].1, x)),
        )
    }
}

/// The syndromes of a single error with the pattern `e` in the term x<sup>d</sup>:
/// syndrome i is e times α<sup>id</sup>.
pub open spec fn error_syndromes(n: nat, t2: nat, d: nat, e: u8) -> Seq<u8> {
    Seq::new(n, |i: int| if i < t2 { gf_mul(e, antilog((i + 1) * d)) } else { 0u8 })
}

/// The syndromes of the first `m` errors: the sums of the syndromes of each.
pub open spec fn errors_syndromes(errs: Seq<(nat, u8)>, n: nat, t2: nat, m: nat) -> Seq<u8>
    decreases m,
{
    if m == 0 {
        poly_zero(n)
    } else {
        poly_add(
            errors_syndromes(errs, n, t2, (m - 1) as nat),
            error_syndromes(n, t2, errs[m - 1].0, errs[m - 1].1),
        )
    }
}

/// The syndromes of a single error are field elements, and each is X times the one
/// before.
pub proof fn lemma_error_syndromes(n: nat, t2: nat, d: nat, e: u8)
    requires
        t2 <= n,
        e < 64,
    ensures
        in_field(error_syndromes(n, t2, d, e)),
        degree_below(error_syndromes(n, t2, d, e), t2),
        0 < t2 ==> error_syndromes(n, t2, d, e)[0] == gf_mul(e, antilog(d as int)),
        forall|i: int|
            0 <= i < t2 - 1 ==> #[trigger] error_syndromes(n, t2, d, e)[i + 1] == gf_mul(
                antilog(d as int),
                error_syndromes(n, t2, d, e)[i],
            ),
{
    let g = error_syndromes(n, t2, d, e);
    let x = antilog(d as int);
    lemma_antilog_range(d as int);
    assert forall|i: int| 0 <= i < n implies #[trigger] g[i] < 64 by {
        if i < t2 {
            assert((i + 1) * d >= 0) by (nonlinear_arith)
                requires
                    i >= 0,
                    d >= 0,
            ;
            lemma_antilog_range((i + 1) * d);
            lemma_mul_basics(e, antilog((i + 1) * d));
        }
    }
    if 0 < t2 {
        assert((0int + 1) * d == d) by (nonlinear_arith);
    }
    assert forall|i: int| 0 <= i < t2 - 1 implies #[trigger] g[i + 1] == gf_mul(x, g[i]) by {
        let before = (i + 1) * d;
        assert(before >= 0 && (i + 1 + 1) * d == before + d) by (nonlinear_arith)
            requires
                before == (i + 1) * d,
                i >= 0,
                d >= 0,
        ;
        lemma_antilog_range(before);
        lemma_mul_powers(before, d as int);
        lemma_mul_associative(e, antilog(before), x);
        lemma_mul_basics(e, antilog(before));
        lemma_mul_basics(gf_mul(e, antilog(before)), x);
    }
}

/// The syndromes of any number of errors are field elements.
pub proof fn lemma_errors_syndromes(errs: Seq<(nat, u8)>, n: nat, t2: nat, m: nat)
    requires
        errors_valid(errs, n),
        t2 <= n,
        m <= errs.len(),
    ensures
        errors_syndromes(errs, n, t2, m).len() == n,
        in_field(errors_syndromes(errs, n, t2, m)),
        degree_below(errors_syndromes(errs, n, t2, m), t2),
    decreases m,
{
    if m > 0 {
        lemma_errors_syndromes(errs, n, t2, (m - 1) as nat);
        lemma_error_syndromes(n, t2, errs[m - 1].0, errs[m - 1].1);
        let before = errors_syndromes(errs, n, t2, (m - 1) as nat);
        let added = error_syndromes(n, t2, errs[m - 1].0, errs[m - 1].1);
        let syn = errors_syndromes(errs, n, t2, m);
        assert forall|i: int| 0 <= i < n implies #[trigger] syn[i] < 64 by {
            lemma_add_laws(before[i], added[i], 0);
        }
        assert forall|i: int| t2 <= i < n implies #[trigger] syn[i] == 0 by {
            lemma_add_laws(0, 0, 0);
        }
    }
}

/// The polynomial (1 + cx)p(x) is a polynomial over the field with the constant term of
/// p(x), and its degree is at most one more than that of p(x).
pub proof fn lemma_times_linear(p: Seq<u8>, c: u8, deg: nat)
    requires
        0 < p.len(),
        in_field(p),
        c < 64,
        forall|k: int| deg < k < p.len() ==> #[trigger] p[k] == 0,
    ensures
        times_linear(p, c).len() == p.len(),
        in_field(times_linear(p, c)),
        times_linear(p, c)[0] == p[0],
        forall|k: int|
            1 <= k < p.len() ==> #[trigger] times_linear(p, c)[k] == gf_add(
                p[k],
                gf_mul(p[k - 1], c),
            ),
        forall|k: int| deg + 1 < k < p.len() ==> #[trigger] times_linear(p, c)[k] == 0,
{
    let q = times_linear(p, c);
    lemma_mul_basics(0, c);
    lemma_add_laws(p[0], 0, 0);
    lemma_add_laws(0, 0, 0);
    assert forall|k: int| 0 <= k < p.len() implies #[trigger] q[k] < 64 by {
        lemma_mul_basics(poly_raise(p, 1)[k], c);
        lemma_add_laws(p[k], gf_mul(poly_raise(p, 1)[k], c), 0);
    }
    assert forall|k: int| deg + 1 < k < p.len() implies #[trigger] q[k] == 0 by {
        assert(p[k] == 0);
        assert(p[k - 1] == 0);
    }
}

/// The product of the 1 + X<sub>l</sub>x for `m` errors has the constant term 1 and the
/// degree `m` at most, and the sum that goes with it has a degree below `m`.
pub proof fn lemma_locator_of(errs: Seq<(nat, u8)>, n: nat, m: nat)
    requires
        errors_valid(errs, n),
        0 < n,
        m <= errs.len(),
    ensures
        locator_of(errs, n, m).len() == n,
        in_field(locator_of(errs, n, m)),
        locator_of(errs, n, m)[0] == 1,
        forall|k: int| m < k < n ==> #[trigger] locator_of(errs, n, m)[k] == 0,
        evaluator_of(errs, n, m).len() == n,
        in_field(evaluator_of(errs, n, m)),
        forall|k: int| 0 <= k < n && m <= k ==> #[trigger] evaluator_of(errs, n, m)[k] == 0,
    decreases m,
{
    if m > 0 {
        let before = (m - 1) as nat;
        lemma_locator_of(errs, n, before);
        let x = antilog(errs[m - 1].0 as int);
        let e = errs[m - 1].1;
        lemma_antilog_range(errs[m - 1].0 as int);
        lemma_mul_basics(e, x);
        let loc = locator_of(errs, n, before);
        let val = evaluator_of(errs, n, before);
        lemma_times_linear(loc, x, before);
        if m >= 2 {
            lemma_times_linear(val, x, (m - 2) as nat);
        } else {
            lemma_times_linear(val, x, 0);
            assert(times_linear(val, x)[0] == 0);
            assert forall|k: int| 1 <= k < n implies #[trigger] times_linear(val, x)[k] == 0 by {
                lemma_mul_basics(0, x);
                lemma_add_laws(0, 0, 0);
            }
        }
        let scaled = poly_scale(loc, gf_mul(e, x));
        let next = evaluator_of(errs, n, m);
        assert forall|k: int| 0 <= k < n implies #[trigger] next[k] < 64 by {
            lemma_mul_basics(loc[k], gf_mul(e, x));
            lemma_add_laws(times_linear(val, x)[k], scaled[k], 0);
        }
        assert forall|k: int| 0 <= k < n && m <= k implies #[trigger] next[k] == 0 by {
            assert(loc[k] == 0);
            lemma_mul_basics(0, gf_mul(e, x));
            lemma_add_laws(0, 0, 0);
            assert(times_linear(val, x)[k] == 0);
        }
    }
}

/// The sum for the sum of two syndrome polynomials is the sum of their sums, but for the
/// term that meets the constant 1 of 1 + xs(x), which is counted once.
proof fn lemma_product_sum_syndromes(
    a: Seq<u8>,
    s1: Seq<u8>,
    s2: Seq<u8>,
    t2: nat,
    k: int,
    m: nat,
)
    requires
        in_field(a),
        in_field(s1),
        in_field(s2),
        s1.len() == s2.len(),
        t2 <= s1.len(),
        m <= a.len(),
    ensures
        product_sum(a, extended_syndromes(poly_add(s1, s2), t2), k, m) == gf_add(
            gf_add(
                product_sum(a, extended_syndromes(s1, t2), k, m),
                product_sum(a, extended_syndromes(s2, t2), k, m),
            ),
            if 0 <= k < m {
                a[k]
            } else {
                0
            },
        ),
    decreases m,
{
    let f1 = extended_syndromes(s1, t2);
    let f2 = extended_syndromes(s2, t2);
    let f = extended_syndromes(poly_add(s1, s2), t2);
    lemma_add_laws(0, 0, 0);
    if m > 0 {
        let i = m - 1;
        lemma_product_sum_syndromes(a, s1, s2, t2, k, (m - 1) as nat);
        lemma_extended_syndromes(s1, t2);
        lemma_extended_syndromes(s2, t2);
        lemma_product_sum_range(a, f1, k, (m - 1) as nat);
        lemma_product_sum_range(a, f2, k, (m - 1) as nat);
        let p1 = product_sum(a, f1, k, (m - 1) as nat);
        let p2 = product_sum(a, f2, k, (m - 1) as nat);
        let extra: u8 = if 0 <= k < m - 1 { a[k] } else { 0 };
        let ai = a[i];
        let t1 = gf_mul(ai, f1(k - i));
        let t2_ = gf_mul(ai, f2(k - i));
        let t = gf_mul(ai, f(k - i));
        assert(f1(k - i) == extended_syndrome(s1, t2, k - i));
        assert(f2(k - i) == extended_syndrome(s2, t2, k - i));
        assert(f(k - i) == extended_syndrome(poly_add(s1, s2), t2, k - i));
        lemma_mul_basics(a[i], f1(k - i));
        lemma_mul_basics(a[i], f2(k - i));
        lemma_mul_basics(a[i], 1);
        lemma_mul_basics(a[i], 0);
        if k - i == 0 {
            // All three series have the constant term 1.
            assert(((p1 ^ p2) ^ 0) ^ ai == ((p1 ^ ai) ^ (p2 ^ ai)) ^ ai) by (bit_vector);
        } else {
            if 1 <= k - i <= t2 {
                lemma_mul_distributive(a[i], s1[k - i - 1], s2[k - i - 1]);
            }
            assert(((p1 ^ p2) ^ extra) ^ (t1 ^ t2_) == ((p1 ^ t1) ^ (p2 ^ t2_)) ^ extra)
                by (bit_vector);
        }
    }
}

/// Whether each of the `t2` syndromes in `g` is `x` times the one before.
pub open spec fn is_geometric(g: Seq<u8>, t2: nat, x: u8) -> bool {
    &&& in_field(g)
    &&& t2 <= g.len()
    &&& degree_below(g, t2)
    &&& forall|i: int| 0 <= i < t2 - 1 ==> #[trigger] g[i + 1] == gf_mul(x, g[i])
}

/// The first terms of the sum for (1 + Xx)p(x) and the syndromes of a single error with
/// the locator X cancel but for one.
proof fn lemma_product_sum_geometric(p: Seq<u8>, x: u8, g: Seq<u8>, t2: nat, k: int, m: nat)
    requires
        0 < p.len(),
        in_field(p),
        x < 64,
        is_geometric(g, t2, x),
        1 <= m <= k <= t2,
        k < p.len(),
    ensures
        product_sum(times_linear(p, x), extended_syndromes(g, t2), k, m) == gf_mul(
            p[m - 1],
            g[k - m],
        ),
    decreases m,
{
    let q = times_linear(p, x);
    let f = extended_syndromes(g, t2);
    lemma_times_linear(p, x, p.len());
    assert(f(k - (m - 1)) == extended_syndrome(g, t2, k - (m - 1)));
    lemma_mul_basics(p[m - 1], g[k - m]);
    if m == 1 {
        assert(product_sum(q, f, k, 0) == 0);
        lemma_add_laws(gf_mul(p[0], g[k - 1]), 0, 0);
    } else {
        lemma_product_sum_geometric(p, x, g, t2, k, (m - 1) as nat);
        let y = g[k - m];
        let a = p[m - 2];
        let b = p[m - 1];
        assert(g[k - m + 1] == gf_mul(x, y));
        // a(xy) + (b + ax)y = by
        lemma_mul_basics(x, y);
        lemma_mul_basics(a, x);
        lemma_mul_associative(a, x, y);
        lemma_mul_distributive(y, b, gf_mul(a, x));
        lemma_mul_basics(b, y);
        lemma_mul_basics(gf_mul(a, x), y);
        lemma_add_cancels(gf_mul(b, y), gf_mul(gf_mul(a, x), y));
        lemma_add_laws(gf_mul(b, y), gf_mul(gf_mul(a, x), y), 0);
    }
}

/// The coefficient of x<sup>k</sup> in the product of (1 + Xx)p(x) and 1 + xs(x), for the
/// syndromes of a single error with the locator X, is that of (1 + Xx)p(x) plus the first
/// syndrome times the coefficient of x<sup>k-1</sup> in p(x).
proof fn lemma_product_coef_geometric(p: Seq<u8>, x: u8, g: Seq<u8>, t2: nat, k: int)
    requires
        0 < p.len(),
        in_field(p),
        x < 64,
        is_geometric(g, t2, x),
        1 <= k <= t2,
        k < p.len(),
    ensures
        product_coef(times_linear(p, x), extended_syndromes(g, t2), k) == gf_add(
            times_linear(p, x)[k],
            gf_mul(p[k - 1], g[0]),
        ),
{
    let q = times_linear(p, x);
    let f = extended_syndromes(g, t2);
    lemma_times_linear(p, x, p.len());
    lemma_extended_syndromes(g, t2);
    lemma_product_sum_geometric(p, x, g, t2, k, k as nat);
    assert forall|j: int| k + 1 <= j < q.len() implies #[trigger] q[j] == 0 || f(k - j) == 0 by {
        assert(f(k - j) == extended_syndrome(g, t2, k - j));
    }
    lemma_product_sum_zeros(q, f, k, (k + 1) as nat, q.len());
    assert(f(k - k) == extended_syndrome(g, t2, 0));
    lemma_mul_basics(q[k], 1);
    lemma_mul_basics(p[k - 1], g[0]);
    lemma_add_laws(gf_mul(p[k - 1], g[0]), q[k], 0);
}

/// The product of the locator polynomial of the errors and 1 + xs(x), for the syndromes
/// of the errors, is the locator polynomial plus x times the evaluator polynomial, up to
/// the term x<sup>2t</sup>.
pub proof fn lemma_locator_product(errs: Seq<(nat, u8)>, n: nat, t2: nat, m: nat, k: int)
    requires
        errors_valid(errs, n),
        t2 < n,
        m <= errs.len(),
        m < n,
        0 <= k <= t2,
    ensures
        product_coef(
            locator_of(errs, n, m),
            extended_syndromes(errors_syndromes(errs, n, t2, m), t2),
            k,
        ) == (if k == 0 {
            1
        } else {
            gf_add(locator_of(errs, n, m)[k], evaluator_of(errs, n, m)[k - 1])
        }),
    decreases m,
{
    let loc = locator_of(errs, n, m);
    let syn = errors_syndromes(errs, n, t2, m);
    let f = extended_syndromes(syn, t2);
    lemma_locator_of(errs, n, m);
    lemma_errors_syndromes(errs, n, t2, m);
    lemma_extended_syndromes(syn, t2);
    lemma_add_laws(0, 0, 0);
    lemma_add_laws(1, 0, 0);
    if k == 0 {
        // Only the constant terms meet.
        assert forall|j: int| 1 <= j < n implies #[trigger] loc[j] == 0 || f(k - j) == 0 by {
            assert(f(k - j) == extended_syndrome(syn, t2, k - j));
        }
        lemma_product_sum_zeros(loc, f, k, 1, n);
        reveal_with_fuel(product_sum, 2);
        assert(f(0) == extended_syndrome(syn, t2, 0));
        lemma_mul_basics(1, 1);
    } else if m == 0 {
        assert forall|j: int| 1 <= j < n implies #[trigger] loc[j] == 0 || f(k - j) == 0 by {
        }
        lemma_product_sum_zeros(loc, f, k, 1, n);
        reveal_with_fuel(product_sum, 2);
        assert(f(k - 0) == extended_syndrome(syn, t2, k));
        lemma_mul_basics(1, 0);
    } else {
        let before = (m - 1) as nat;
        let d = errs[m - 1].0;
        let e = errs[m - 1].1;
        let x = antilog(d as int);
        lemma_antilog_range(d as int);
        let p = locator_of(errs, n, before);
        let val = evaluator_of(errs, n, before);
        let old = errors_syndromes(errs, n, t2, before);
        let g = error_syndromes(n, t2, d, e);
        let f_old = extended_syndromes(old, t2);
        let f_g = extended_syndromes(g, t2);
        lemma_locator_of(errs, n, before);
        lemma_errors_syndromes(errs, n, t2, before);
        lemma_error_syndromes(n, t2, d, e);
        lemma_extended_syndromes(old, t2);
        lemma_extended_syndromes(g, t2);
        lemma_times_linear(p, x, before);
        if m >= 2 {
            lemma_times_linear(val, x, (m - 2) as nat);
        } else {
            lemma_times_linear(val, x, 0);
        }
        lemma_mul_basics(e, x);
        // The syndromes are those of the errors before plus those of the last error.
        lemma_product_sum_syndromes(loc, old, g, t2, k, n);
        // For the errors before, (1 + Xx)p(x) gives the terms of p(x), and those one place
        // down times X.
        assert(p[n - 1] == 0);
        lemma_product_coef_combined(p, p, 1, x, f_old, k);
        lemma_locator_product(errs, n, t2, before, k);
        lemma_locator_product(errs, n, t2, before, k - 1);
        // For the last error, all but one term cancel.
        lemma_product_coef_geometric(p, x, g, t2, k);
        let pk = p[k];
        let pk1 = p[k - 1];
        let vk1 = val[k - 1];
        let vk2: u8 = if k >= 2 { val[k - 2] } else { 0 };
        let q = loc[k];
        let xp = gf_mul(pk1, x);
        let xv = gf_mul(vk2, x);
        let ep = gf_mul(pk1, gf_mul(e, x));
        lemma_mul_basics(pk1, x);
        lemma_mul_basics(vk2, x);
        lemma_mul_basics(pk1, gf_mul(e, x));
        lemma_mul_basics(1, x);
        assert(q == gf_add(pk, xp));
        assert(evaluator_of(errs, n, m)[k - 1] == gf_add(gf_add(vk1, xv), ep));
        let lower = product_coef(p, f_old, k - 1);
        assert(gf_mul(lower, x) == gf_add(xp, xv)) by {
            if k >= 2 {
                lemma_mul_distributive(x, pk1, vk2);
            } else {
                lemma_add_laws(xp, 0, 0);
            }
        }
        assert(((pk ^ vk1) ^ (xp ^ xv)) ^ (q ^ ep) ^ q == q ^ ((vk1 ^ xv) ^ ep)) by (bit_vector)
            requires
                q == pk ^ xp,
        ;
    }
}

/// The locator polynomial of the errors is a recurrence for their syndromes, as long as
/// the number of errors.
pub proof fn lemma_locator_recurrence(errs: Seq<(nat, u8)>, n: nat, t2: nat)
    requires
        errors_valid(errs, n),
        t2 < n,
        errs.len() <= t2,
    ensures
        is_recurrence(
            locator_of(errs, n, errs.len()),
            errors_syndromes(errs, n, t2, errs.len()),
            t2,
            errs.len(),
            t2 as int,
        ),
{
    let m = errs.len();
    let loc = locator_of(errs, n, m);
    let syn = errors_syndromes(errs, n, t2, m);
    lemma_locator_of(errs, n, m);
    lemma_errors_syndromes(errs, n, t2, m);
    assert forall|k: int| m < k <= t2 implies #[trigger] product_coef(
        loc,
        extended_syndromes(syn, t2),
        k,
    ) == 0 by {
        lemma_locator_product(errs, n, t2, m, k);
        lemma_add_laws(0, 0, 0);
    }
}

/// The value at y of the locator polynomial of the first `m` errors: the product of the 1
/// + X<sub>l</sub>y.
pub open spec fn locator_at(errs: Seq<(nat, u8)>, y: u8, m: nat) -> u8
    decreases m,
{
    if m == 0 {
        1
    } else {
        gf_mul(
            gf_add(1, gf_mul(antilog(errs[m - 1].0 as int), y)),
            locator_at(errs, y, (m - 1) as nat),
        )
    }
}

/// The value at y of the evaluator polynomial of the first `m` errors.
pub open spec fn evaluator_at(errs: Seq<(nat, u8)>, y: u8, m: nat) -> u8
    decreases m,
{
    if m == 0 {
        0
    } else {
        let x = antilog(errs[m - 1].0 as int);
        gf_add(
            gf_mul(gf_add(1, gf_mul(x, y)), evaluator_at(errs, y, (m - 1) as nat)),
            gf_mul(locator_at(errs, y, (m - 1) as nat), gf_mul(errs[m - 1].1, x)),
        )
    }
}

/// The value at y of the derivative of the locator polynomial of the first `m` errors.
pub open spec fn slope_at(errs: Seq<(nat, u8)>, y: u8, m: nat) -> u8
    decreases m,
{
    if m == 0 {
        0
    } else {
        let x = antilog(errs[m - 1].0 as int);
        gf_add(
            gf_mul(gf_add(1, gf_mul(x, y)), slope_at(errs, y, (m - 1) as nat)),
            gf_mul(locator_at(errs, y, (m - 1) as nat), x),
        )
    }
}

/// The three values are field elements.
pub proof fn lemma_values_range(errs: Seq<(nat, u8)>, n: nat, y: u8, m: nat)
    requires
        errors_valid(errs, n),
        y < 64,
        m <= errs.len(),
    ensures
        locator_at(errs, y, m) < 64,
        evaluator_at(errs, y, m) < 64,
        slope_at(errs, y, m) < 64,
    decreases m,
{
    if m > 0 {
        lemma_values_range(errs, n, y, (m - 1) as nat);
        let x = antilog(errs[m - 1].0 as int);
        let e = errs[m - 1].1;
        lemma_antilog_range(errs[m - 1].0 as int);
        lemma_mul_basics(x, y);
        lemma_add_laws(1, gf_mul(x, y), 0);
        let f = gf_add(1, gf_mul(x, y));
        lemma_mul_basics(e, x);
        lemma_mul_basics(f, locator_at(errs, y, (m - 1) as nat));
        lemma_mul_basics(f, evaluator_at(errs, y, (m - 1) as nat));
        lemma_mul_basics(f, slope_at(errs, y, (m - 1) as nat));
        lemma_mul_basics(locator_at(errs, y, (m - 1) as nat), gf_mul(e, x));
        lemma_mul_basics(locator_at(errs, y, (m - 1) as nat), x);
        lemma_add_laws(
            gf_mul(f, evaluator_at(errs, y, (m - 1) as nat)),
            gf_mul(locator_at(errs, y, (m - 1) as nat), gf_mul(e, x)),
            0,
        );
        lemma_add_laws(
            gf_mul(f, slope_at(errs, y, (m - 1) as nat)),
            gf_mul(locator_at(errs, y, (m - 1) as nat), x),
            0,
        );
    }
}

/// The values of the locator polynomial, the evaluator polynomial, and the derivative of
/// the locator polynomial of the errors.
pub proof fn lemma_values(errs: Seq<(nat, u8)>, n: nat, y: u8, m: nat)
    requires
        errors_valid(errs, n),
        y < 64,
        m <= errs.len(),
        m < n,
    ensures
        poly_eval(locator_of(errs, n, m), y) == locator_at(errs, y, m),
        poly_eval(evaluator_of(errs, n, m), y) == evaluator_at(errs, y, m),
        poly_eval(poly_deriv(locator_of(errs, n, m)), y) == slope_at(errs, y, m),
    decreases m,
{
    if m == 0 {
        lemma_eval_one(n, y);
        lemma_eval_zero(n, y);
        assert(poly_deriv(poly_unit_power(n, 0)) =~= poly_zero(n));
    } else {
        let before = (m - 1) as nat;
        lemma_values(errs, n, y, before);
        lemma_values_range(errs, n, y, before);
        lemma_locator_of(errs, n, before);
        let x = antilog(errs[m - 1].0 as int);
        let e = errs[m - 1].1;
        lemma_antilog_range(errs[m - 1].0 as int);
        lemma_mul_basics(e, x);
        let loc = locator_of(errs, n, before);
        let val = evaluator_of(errs, n, before);
        assert(loc[n - 1] == 0);
        assert(val[n - 1] == 0);
        lemma_eval_times_linear(loc, x, y);
        lemma_eval_times_linear(val, x, y);
        lemma_times_linear(val, x, n);
        assert(in_field(poly_scale(loc, gf_mul(e, x)))) by {
            assert forall|k: int| 0 <= k < n implies #[trigger] poly_scale(
                loc,
                gf_mul(e, x),
            )[k] < 64 by {
                lemma_mul_basics(loc[k], gf_mul(e, x));
            }
        }
        lemma_eval_add(times_linear(val, x), poly_scale(loc, gf_mul(e, x)), y);
        lemma_eval_scale(loc, gf_mul(e, x), y);
        lemma_deriv_times_linear(loc, x);
        let der = poly_deriv(loc);
        lemma_eval_times_linear(der, x, y);
        lemma_times_linear(der, x, n);
        assert(in_field(poly_scale(loc, x))) by {
            assert forall|k: int| 0 <= k < n implies #[trigger] poly_scale(loc, x)[k] < 64 by {
                lemma_mul_basics(loc[k], x);
            }
        }
        lemma_eval_add(times_linear(der, x), poly_scale(loc, x), y);
        lemma_eval_scale(loc, x, y);
    }
}

/// The power of α that is the inverse of α<sup>d</sup>.
pub open spec fn inverse_power(d: nat) -> nat {
    ((63 - d) % 63) as nat
}

/// The root of the locator polynomial that belongs to an error in the term
/// x<sup>d</sup>: the inverse of α<sup>d</sup>.
pub open spec fn root_of(d: nat) -> u8 {
    antilog(inverse_power(d) as int)
}

/// The factor 1 + α<sup>c</sup>x of a locator polynomial vanishes at the root that belongs
/// to an error in the term x<sup>d</sup> only if c is d.
pub proof fn lemma_factor_at_root(c: nat, d: nat)
    requires
        c < 63,
        d < 63,
    ensures
        0 < root_of(d) < 64,
        gf_add(1, gf_mul(antilog(c as int), root_of(d))) < 64,
        gf_add(1, gf_mul(antilog(c as int), root_of(d))) == 0 <==> c == d,
{
    let r = inverse_power(d);
    lemma_antilog_range(r as int);
    lemma_antilog_range(c as int);
    lemma_mul_powers(c as int, r as int);
    lemma_antilog_range((c + r) as int);
    lemma_antilog_step(0);
    lemma_powers_equal((c + r) as int, 0);
    lemma_add_cancels(1, antilog((c + r) as int));
    lemma_add_laws(1, antilog((c + r) as int), 0);
    assert((c + r) % 63 == 0 <==> c == d);
}

/// The locator polynomial of the errors vanishes at a field element only if one of its
/// factors does.
pub proof fn lemma_locator_at_zero(errs: Seq<(nat, u8)>, n: nat, y: u8, m: nat)
    requires
        errors_valid(errs, n),
        y < 64,
        m <= errs.len(),
    ensures
        locator_at(errs, y, m) == 0 <==> exists|j: int|
            0 <= j < m && gf_add(1, #[trigger] gf_mul(antilog(errs[j].0 as int), y)) == 0,
    decreases m,
{
    if m > 0 {
        lemma_locator_at_zero(errs, n, y, (m - 1) as nat);
        lemma_values_range(errs, n, y, (m - 1) as nat);
        let x = antilog(errs[m - 1].0 as int);
        lemma_antilog_range(errs[m - 1].0 as int);
        lemma_mul_basics(x, y);
        lemma_add_laws(1, gf_mul(x, y), 0);
        lemma_mul_basics(gf_add(1, gf_mul(x, y)), locator_at(errs, y, (m - 1) as nat));
        if locator_at(errs, y, m) == 0 {
            if gf_add(1, gf_mul(x, y)) == 0 {
                assert(gf_add(1, gf_mul(antilog(errs[m - 1].0 as int), y)) == 0);
            } else {
                let j = choose|j: int|
                    0 <= j < m - 1 && gf_add(1, #[trigger] gf_mul(antilog(errs[j].0 as int), y))
                        == 0;
                assert(gf_add(1, gf_mul(antilog(errs[j].0 as int), y)) == 0);
            }
        }
    }
}

/// At the root that belongs to error `l`, the locator polynomial of the first `m` errors
/// vanishes if and only if error `l` is one of them.
pub proof fn lemma_locator_at_root(errs: Seq<(nat, u8)>, n: nat, l: int, m: nat)
    requires
        errors_valid(errs, n),
        0 <= l < errs.len(),
        m <= errs.len(),
    ensures
        locator_at(errs, root_of(errs[l].0), m) == 0 <==> l < m,
{
    let y = root_of(errs[l].0);
    lemma_factor_at_root(errs[l].0, errs[l].0);
    lemma_locator_at_zero(errs, n, y, m);
    if l < m {
        assert(gf_add(1, gf_mul(antilog(errs[l].0 as int), y)) == 0);
    }
    if locator_at(errs, y, m) == 0 {
        let j = choose|j: int|
            0 <= j < m && gf_add(1, #[trigger] gf_mul(antilog(errs[j].0 as int), y)) == 0;
        lemma_factor_at_root(errs[j].0, errs[l].0);
    }
}

/// Forney's formula. At the root that belongs to one of the errors, the derivative of the
/// locator polynomial does not vanish, and the value of the evaluator polynomial is the
/// pattern of the error times the value of the derivative.
pub proof fn lemma_pattern_at_root(errs: Seq<(nat, u8)>, n: nat, l: int, m: nat)
    requires
        errors_valid(errs, n),
        0 <= l < m <= errs.len(),
    ensures
        slope_at(errs, root_of(errs[l].0), m) != 0,
        evaluator_at(errs, root_of(errs[l].0), m) == gf_mul(
            errs[l].1,
            slope_at(errs, root_of(errs[l].0), m),
        ),
    decreases m,
{
    let y = root_of(errs[l].0);
    let before = (m - 1) as nat;
    let d = errs[m - 1].0;
    let e = errs[m - 1].1;
    let x = antilog(d as int);
    let f = gf_add(1, gf_mul(x, y));
    let loc = locator_at(errs, y, before);
    let val = evaluator_at(errs, y, before);
    let der = slope_at(errs, y, before);
    lemma_factor_at_root(d, errs[l].0);
    lemma_antilog_range(d as int);
    lemma_values_range(errs, n, y, before);
    lemma_locator_at_root(errs, n, l, before);
    lemma_mul_basics(e, x);
    lemma_mul_basics(f, val);
    lemma_mul_basics(f, der);
    lemma_mul_basics(loc, gf_mul(e, x));
    lemma_mul_basics(loc, x);
    lemma_add_laws(gf_mul(loc, gf_mul(e, x)), 0, 0);
    lemma_add_laws(gf_mul(loc, x), 0, 0);
    lemma_add_laws(gf_mul(f, val), 0, 0);
    lemma_add_laws(gf_mul(f, der), 0, 0);
    if l == m - 1 {
        // The factor of the error vanishes, and the values are what the other factors
        // leave.
        lemma_mul_associative(loc, e, x);
        lemma_mul_basics(loc, e);
        lemma_mul_associative(e, loc, x);
    } else {
        // The locator of the errors before vanishes, and both values get the same factor.
        lemma_pattern_at_root(errs, n, l, before);
        let el = errs[l].1;
        lemma_mul_associative(f, el, der);
        lemma_mul_basics(f, el);
        lemma_mul_associative(el, f, der);
        lemma_mul_basics(el, der);
    }
}

} // verus!
