//! Why the iteration finds the locator polynomial of the errors.
//!
//! Let Λ(x) and Ω(x) be the locator and evaluator polynomials that the decoder computes
//! from the syndromes of some errors, and Λ*(x) and Ω*(x) those of the errors themselves.
//! Both locators are recurrences for the syndromes, so that Λ(x)Ω*(x) = Λ*(x)Ω(x) if
//! there are no more errors than half the number of syndromes. Every root of Λ*(x) is then
//! a root of Λ(x), and since Λ(x) is no longer than Λ*(x), the two are the same.

use vstd::prelude::*;
use crate::coding::algebra::{
    lemma_add_cancels, lemma_add_laws, lemma_mul_associative, lemma_mul_basics,
    lemma_mul_distributive,
};
use crate::coding::bmcf::{error_evaluator, error_locator};
use crate::coding::correction::{
    errors_syndromes, errors_valid, evaluator_at, evaluator_of, lemma_errors_syndromes,
    lemma_factor_at_root, lemma_locator_at_root, lemma_locator_of, lemma_locator_product,
    lemma_locator_recurrence, lemma_pattern_at_root, lemma_times_linear, lemma_values_range,
    locator_at, locator_of, root_of, slope_at, times_linear,
};
use crate::coding::evaluation::{
    gf_pow, lemma_eval_add, lemma_eval_scale, lemma_eval_times_linear,
    lemma_eval_times_linear_cut, lemma_pow,
};
use crate::coding::galois::{antilog, gf_add, gf_mul, lemma_antilog_range};
use crate::coding::polynomial::{
    convolution, degree_below, lemma_eval_zero, poly_add, poly_eval, poly_mul, poly_scale,
    poly_unit_power, poly_zero,
};
use crate::coding::recurrence::{
    coefficients, double_sum, extended_syndrome, extended_syndromes, lemma_coefficients,
    is_recurrence, lemma_double_sum_swap, lemma_extended_syndromes,
    lemma_product_coef_combined, lemma_product_sum_add, lemma_product_sum_range,
    lemma_locator_is_recurrence, lemma_locator_is_shortest, lemma_product_sum_scale,
    lemma_product_sum_zeros, product_coef, product_sum, recurrence_length, syndromes_fit,
    values_in_field,
};
use crate::coding::reed_solomon::systematic::{in_field, lemma_word_eval_range, word_eval};

verus! {

/// The coefficients of the constant polynomial 1 as a function of the degree.
pub open spec fn unit_coefficients() -> spec_fn(int) -> u8 {
    |k: int| if k == 0 { 1u8 } else { 0u8 }
}

/// The polynomial with the coefficients of the product of a(x) and b(x), up to the length
/// of `a`.
pub open spec fn product_of(a: Seq<u8>, b: Seq<u8>) -> Seq<u8> {
    Seq::new(a.len(), |k: int| product_coef(a, coefficients(b), k))
}

/// A double sum whose inner sums are the values of a function is a sum of products with
/// that function.
pub proof fn lemma_double_sum_as_product(
    a: Seq<u8>,
    b: Seq<u8>,
    f: spec_fn(int) -> u8,
    g: spec_fn(int) -> u8,
    k: int,
    m: nat,
)
    requires
        in_field(a),
        m <= a.len(),
        forall|i: int| 0 <= i < m ==> #[trigger] a[i] == 0 || product_coef(b, f, k - i) == g(k - i),
    ensures
        double_sum(a, b, f, k, m, b.len()) == product_sum(a, g, k, m),
    decreases m,
{
    if m > 0 {
        lemma_double_sum_as_product(a, b, f, g, k, (m - 1) as nat);
        assert(a[m - 1] == 0 || product_coef(b, f, k - (m - 1)) == g(k - (m - 1)));
        if a[m - 1] == 0 {
            assert(gf_mul(0, product_sum(b, f, k - (m - 1), b.len())) == 0);
            assert(gf_mul(0, g(k - (m - 1))) == 0);
        }
    }
}

/// The coefficient of x<sup>k</sup> in the product of b(x) and the constant 1 is that of
/// b(x).
pub proof fn lemma_product_with_unit(b: Seq<u8>, k: int, m: nat)
    requires
        in_field(b),
        m <= b.len(),
    ensures
        product_sum(b, unit_coefficients(), k, m) == (if 0 <= k < m {
            b[k]
        } else {
            0
        }),
    decreases m,
{
    if m > 0 {
        lemma_product_with_unit(b, k, (m - 1) as nat);
        let f = unit_coefficients();
        lemma_mul_basics(b[m - 1], 1);
        lemma_mul_basics(b[m - 1], 0);
        lemma_add_laws(b[m - 1], 0, 0);
        lemma_add_laws(0, 0, 0);
        if 0 <= k < m - 1 {
            lemma_add_laws(b[k], 0, 0);
        }
    }
}

/// The product of two polynomials does not depend on their order.
pub proof fn lemma_product_commutes(a: Seq<u8>, b: Seq<u8>, k: int)
    requires
        a.len() == b.len(),
        in_field(a),
        in_field(b),
    ensures
        product_coef(a, coefficients(b), k) == product_coef(b, coefficients(a), k),
{
    let n = a.len();
    let f = unit_coefficients();
    assert(values_in_field(f));
    assert forall|i: int| 0 <= i < n implies #[trigger] a[i] == 0 || product_coef(b, f, k - i)
        == coefficients(b)(k - i) by {
        lemma_product_with_unit(b, k - i, n);
    }
    lemma_double_sum_as_product(a, b, f, coefficients(b), k, n);
    assert forall|i: int| 0 <= i < n implies #[trigger] b[i] == 0 || product_coef(a, f, k - i)
        == coefficients(a)(k - i) by {
        lemma_product_with_unit(a, k - i, n);
    }
    lemma_double_sum_as_product(b, a, f, coefficients(a), k, n);
    lemma_double_sum_swap(a, b, f, k, n, n);
}

/// The coefficients of a(x)(1 + xs(x)) are those of a(x) plus those of a(x)s(x), one place
/// up.
pub proof fn lemma_extended_product(a: Seq<u8>, syn: Seq<u8>, t2: nat, k: int, m: nat)
    requires
        in_field(a),
        in_field(syn),
        a.len() == syn.len(),
        t2 <= syn.len(),
        degree_below(syn, t2),
        m <= a.len(),
    ensures
        product_sum(a, extended_syndromes(syn, t2), k, m) == gf_add(
            product_sum(a, coefficients(syn), k - 1, m),
            if 0 <= k < m {
                a[k]
            } else {
                0
            },
        ),
    decreases m,
{
    lemma_add_laws(0, 0, 0);
    if m > 0 {
        let i = m - 1;
        lemma_extended_product(a, syn, t2, k, (m - 1) as nat);
        let f = extended_syndromes(syn, t2);
        let g = coefficients(syn);
        lemma_extended_syndromes(syn, t2);
        lemma_coefficients(syn);
        assert(f(k - i) == extended_syndrome(syn, t2, k - i));
        let before = product_sum(a, g, k - 1, (m - 1) as nat);
        lemma_product_sum_range(a, g, k - 1, (m - 1) as nat);
        let ai = a[i];
        lemma_mul_basics(ai, 1);
        lemma_mul_basics(ai, 0);
        lemma_mul_basics(ai, g(k - 1 - i));
        let t = gf_mul(ai, g(k - 1 - i));
        if k - i == 0 {
            lemma_add_laws(before, 0, 0);
        } else {
            if k - i >= 1 && k - i - 1 < syn.len() && k - i > t2 {
                assert(syn[k - i - 1] == 0);
            }
            let extra: u8 = if 0 <= k < m - 1 { a[k] } else { 0 };
            assert((before ^ extra) ^ t == (before ^ t) ^ extra) by (bit_vector);
        }
    }
}

/// The coefficients of the product of a(x) and s(x), as the sums that define the product
/// of polynomials.
pub proof fn lemma_convolution(a: Seq<u8>, b: Seq<u8>, k: int, m: nat)
    requires
        a.len() == b.len(),
        0 <= k < a.len(),
        m <= k + 1,
    ensures
        convolution(a, b, k, m) == product_sum(a, coefficients(b), k, m),
    decreases m,
{
    if m > 0 {
        lemma_convolution(a, b, k, (m - 1) as nat);
    }
}

/// The product of two polynomials, as a polynomial.
pub proof fn lemma_product_of(a: Seq<u8>, b: Seq<u8>)
    requires
        a.len() == b.len(),
        in_field(a),
        in_field(b),
    ensures
        poly_mul(a, b) == product_of(a, b),
        in_field(product_of(a, b)),
{
    let n = a.len();
    lemma_coefficients(b);
    assert forall|k: int| 0 <= k < n implies poly_mul(a, b)[k] == #[trigger] product_of(a, b)[k]
        && product_of(a, b)[k] < 64 by {
        lemma_convolution(a, b, k, (k + 1) as nat);
        lemma_product_sum_zeros(a, coefficients(b), k, (k + 1) as nat, n);
        lemma_product_sum_range(a, coefficients(b), k, n);
    }
    assert(poly_mul(a, b) =~= product_of(a, b));
}

/// The product of two polynomials has no term beyond the sum of their degrees.
pub proof fn lemma_product_degree(a: Seq<u8>, da: nat, b: Seq<u8>, db: nat, k: int)
    requires
        a.len() == b.len(),
        in_field(a),
        in_field(b),
        forall|j: int| da < j < a.len() ==> #[trigger] a[j] == 0,
        forall|j: int| db < j < b.len() ==> #[trigger] b[j] == 0,
        da + db < k,
    ensures
        product_coef(a, coefficients(b), k) == 0,
{
    lemma_coefficients(b);
    assert forall|j: int| 0 <= j < a.len() implies #[trigger] a[j] == 0 || coefficients(b)(k - j)
        == 0 by {
        if j <= da && 0 <= k - j < b.len() {
            assert(b[k - j] == 0);
        }
    }
    lemma_product_sum_zeros(a, coefficients(b), k, 0, a.len());
}

/// The product of the constant 1 and a polynomial is the polynomial.
proof fn lemma_product_of_unit(c: Seq<u8>)
    requires
        0 < c.len(),
        in_field(c),
    ensures
        product_of(poly_unit_power(c.len(), 0), c) == c,
{
    let n = c.len();
    let one = poly_unit_power(n, 0);
    lemma_coefficients(c);
    assert forall|k: int| 0 <= k < n implies #[trigger] product_of(one, c)[k] == c[k] by {
        lemma_product_sum_zeros(one, coefficients(c), k, 1, n);
        reveal_with_fuel(product_sum, 2);
        lemma_mul_basics(1, c[k]);
        lemma_add_laws(c[k], 0, 0);
    }
    assert(product_of(one, c) =~= c);
}

/// The product of (1 + Xx)p(x) and c(x) is 1 + Xx times the product of p(x) and c(x).
proof fn lemma_product_of_times_linear(p: Seq<u8>, x: u8, c: Seq<u8>)
    requires
        0 < p.len(),
        p.len() == c.len(),
        in_field(p),
        in_field(c),
        x < 64,
        p[p.len() - 1] == 0,
    ensures
        product_of(times_linear(p, x), c) == times_linear(product_of(p, c), x),
{
    let n = p.len();
    let f = coefficients(c);
    lemma_coefficients(c);
    lemma_times_linear(p, x, n);
    let lhs = product_of(times_linear(p, x), c);
    let rhs = times_linear(product_of(p, c), x);
    assert forall|k: int| 0 <= k < n implies lhs[k] == rhs[k] by {
        lemma_product_coef_combined(p, p, 1, x, f, k);
        if k == 0 {
            lemma_product_sum_zeros(p, f, -1, 0, n);
            lemma_mul_basics(0, x);
        }
    }
    assert(lhs =~= rhs);
}

/// The value of the product of the locator polynomial of the errors and c(x) is the
/// product of their values.
pub proof fn lemma_locator_product_value(
    errs: Seq<(nat, u8)>,
    n: nat,
    m: nat,
    c: Seq<u8>,
    dc: nat,
    y: u8,
)
    requires
        errors_valid(errs, n),
        m <= errs.len(),
        c.len() == n,
        in_field(c),
        forall|j: int| dc < j < n ==> #[trigger] c[j] == 0,
        m + dc < n,
        y < 64,
    ensures
        in_field(product_of(locator_of(errs, n, m), c)),
        forall|k: int|
            m + dc < k < n ==> #[trigger] product_of(locator_of(errs, n, m), c)[k] == 0,
        poly_eval(product_of(locator_of(errs, n, m), c), y) == gf_mul(
            locator_at(errs, y, m),
            poly_eval(c, y),
        ),
    decreases m,
{
    let loc = locator_of(errs, n, m);
    lemma_locator_of(errs, n, m);
    lemma_coefficients(c);
    assert forall|k: int| 0 <= k < n implies #[trigger] product_of(loc, c)[k] < 64 by {
        lemma_product_sum_range(loc, coefficients(c), k, n);
    }
    assert forall|k: int| m + dc < k < n implies #[trigger] product_of(loc, c)[k] == 0 by {
        lemma_product_degree(loc, m, c, dc, k);
    }
    lemma_eval_add(c, c, y);
    if m == 0 {
        lemma_product_of_unit(c);
        lemma_mul_basics(1, poly_eval(c, y));
    } else {
        let before = (m - 1) as nat;
        let x = antilog(errs[m - 1].0 as int);
        lemma_antilog_range(errs[m - 1].0 as int);
        lemma_locator_product_value(errs, n, before, c, dc, y);
        lemma_locator_of(errs, n, before);
        let p = locator_of(errs, n, before);
        assert(p[n - 1] == 0);
        lemma_product_of_times_linear(p, x, c);
        assert(product_of(p, c)[n - 1] == 0);
        lemma_eval_times_linear(product_of(p, c), x, y);
        lemma_values_range(errs, n, y, before);
        lemma_mul_basics(x, y);
        lemma_add_laws(1, gf_mul(x, y), 0);
        let fy = gf_add(1, gf_mul(x, y));
        lemma_mul_associative(fy, locator_at(errs, y, before), poly_eval(c, y));
    }
}

/// The value of the product of the evaluator polynomial of the errors and c(x) is the
/// product of their values.
pub proof fn lemma_evaluator_product_value(
    errs: Seq<(nat, u8)>,
    n: nat,
    m: nat,
    c: Seq<u8>,
    dc: nat,
    y: u8,
)
    requires
        errors_valid(errs, n),
        m <= errs.len(),
        c.len() == n,
        in_field(c),
        forall|j: int| dc < j < n ==> #[trigger] c[j] == 0,
        m + dc < n,
        y < 64,
    ensures
        in_field(product_of(evaluator_of(errs, n, m), c)),
        forall|k: int|
            0 <= k < n && m + dc <= k ==> #[trigger] product_of(evaluator_of(errs, n, m), c)[k]
                == 0,
        poly_eval(product_of(evaluator_of(errs, n, m), c), y) == gf_mul(
            evaluator_at(errs, y, m),
            poly_eval(c, y),
        ),
    decreases m,
{
    let val = evaluator_of(errs, n, m);
    let f = coefficients(c);
    lemma_locator_of(errs, n, m);
    lemma_coefficients(c);
    lemma_eval_add(c, c, y);
    let cy = poly_eval(c, y);
    assert forall|k: int| 0 <= k < n implies #[trigger] product_of(val, c)[k] < 64 by {
        lemma_product_sum_range(val, f, k, n);
    }
    assert forall|k: int| 0 <= k < n && m + dc <= k implies #[trigger] product_of(val, c)[k]
        == 0 by {
        if m > 0 {
            lemma_product_degree(val, (m - 1) as nat, c, dc, k);
        } else {
            lemma_product_sum_zeros(val, f, k, 0, n);
        }
    }
    if m == 0 {
        assert(product_of(val, c) =~= poly_zero(n)) by {
            assert forall|k: int| 0 <= k < n implies #[trigger] product_of(val, c)[k] == 0 by {
                lemma_product_sum_zeros(val, f, k, 0, n);
            }
        }
        lemma_eval_zero(n, y);
        lemma_mul_basics(0, cy);
    } else {
        let before = (m - 1) as nat;
        let x = antilog(errs[m - 1].0 as int);
        let e = errs[m - 1].1;
        let ex = gf_mul(e, x);
        lemma_antilog_range(errs[m - 1].0 as int);
        lemma_mul_basics(e, x);
        lemma_evaluator_product_value(errs, n, before, c, dc, y);
        lemma_locator_product_value(errs, n, before, c, dc, y);
        lemma_locator_of(errs, n, before);
        lemma_values_range(errs, n, y, before);
        let p = locator_of(errs, n, before);
        let v = evaluator_of(errs, n, before);
        let pc = product_of(p, c);
        let vc = product_of(v, c);
        assert(v[n - 1] == 0);
        lemma_times_linear(v, x, n);
        let scaled = poly_scale(p, ex);
        assert(in_field(scaled)) by {
            assert forall|k: int| 0 <= k < n implies #[trigger] scaled[k] < 64 by {
                lemma_mul_basics(p[k], ex);
            }
        }
        lemma_product_of_times_linear(v, x, c);
        let parts = poly_add(times_linear(vc, x), poly_scale(pc, ex));
        assert(product_of(val, c) =~= parts) by {
            assert forall|k: int| 0 <= k < n implies #[trigger] product_of(val, c)[k]
                == parts[k] by {
                lemma_product_sum_add(times_linear(v, x), scaled, f, k, n);
                lemma_product_sum_scale(p, ex, f, k, n);
                assert(product_of(times_linear(v, x), c)[k] == times_linear(vc, x)[k]);
            }
        }
        assert(vc[n - 1] == 0);
        lemma_times_linear(vc, x, n);
        assert(in_field(poly_scale(pc, ex))) by {
            assert forall|k: int| 0 <= k < n implies #[trigger] poly_scale(pc, ex)[k] < 64 by {
                lemma_mul_basics(pc[k], ex);
            }
        }
        lemma_eval_add(times_linear(vc, x), poly_scale(pc, ex), y);
        lemma_eval_times_linear(vc, x, y);
        lemma_eval_scale(pc, ex, y);
        // f (v c) + (p c) ex = (f v + p ex) c
        let fy = gf_add(1, gf_mul(x, y));
        let vy = evaluator_at(errs, y, before);
        let py = locator_at(errs, y, before);
        lemma_mul_basics(x, y);
        lemma_add_laws(1, gf_mul(x, y), 0);
        lemma_mul_associative(fy, vy, cy);
        lemma_mul_basics(py, cy);
        lemma_mul_associative(py, cy, ex);
        lemma_mul_basics(cy, ex);
        lemma_mul_associative(py, ex, cy);
        lemma_mul_basics(py, ex);
        lemma_mul_basics(fy, vy);
        lemma_mul_distributive(cy, gf_mul(fy, vy), gf_mul(py, ex));
    }
}

/// Whether the polynomial `a` is a recurrence for the syndromes of the errors that is no
/// longer than the number of errors, and the errors are no more than half the number of
/// syndromes.
pub open spec fn is_short_recurrence(
    a: Seq<u8>,
    len: nat,
    errs: Seq<(nat, u8)>,
    n: nat,
    t2: nat,
) -> bool {
    &&& errors_valid(errs, n)
    &&& 2 <= t2
    &&& 2 * t2 <= n
    &&& 2 * errs.len() <= t2
    &&& len <= errs.len()
    &&& is_recurrence(a, errors_syndromes(errs, n, t2, errs.len()), t2, len, t2 as int)
}

/// The evaluator polynomial that goes with a recurrence has a degree below the length of
/// the recurrence, and its coefficients are those of the product of the recurrence and
/// s(x).
pub proof fn lemma_recurrence_evaluator(a: Seq<u8>, len: nat, syn: Seq<u8>, t2: nat)
    requires
        syndromes_fit(syn, t2),
        is_recurrence(a, syn, t2, len, t2 as int),
    ensures
        error_evaluator(syn, a, t2).len() == syn.len(),
        in_field(error_evaluator(syn, a, t2)),
        forall|j: int|
            0 <= j < t2 ==> #[trigger] error_evaluator(syn, a, t2)[j] == product_coef(
                a,
                coefficients(syn),
                j,
            ),
        forall|j: int|
            0 <= j < syn.len() && len <= j ==> #[trigger] error_evaluator(syn, a, t2)[j] == 0,
{
    let n = syn.len();
    let val = error_evaluator(syn, a, t2);
    lemma_product_of(a, syn);
    assert forall|j: int| 0 <= j < n && len <= j implies #[trigger] val[j] == 0 by {
        if j < t2 {
            lemma_extended_product(a, syn, t2, j + 1, n);
            assert(product_coef(a, extended_syndromes(syn, t2), j + 1) == 0);
            assert(a[j + 1] == 0);
            lemma_coefficients(syn);
            lemma_product_sum_range(a, coefficients(syn), j, n);
            lemma_add_laws(product_coef(a, coefficients(syn), j), 0, 0);
        }
    }
}

/// The products of each locator polynomial with the evaluator polynomial of the other are
/// the same.
proof fn lemma_products_agree(a: Seq<u8>, len: nat, errs: Seq<(nat, u8)>, n: nat, t2: nat)
    requires
        is_short_recurrence(a, len, errs, n, t2),
        n == a.len(),
    ensures
        product_of(a, evaluator_of(errs, n, errs.len())) == product_of(
            locator_of(errs, n, errs.len()),
            error_evaluator(errors_syndromes(errs, n, t2, errs.len()), a, t2),
        ),
{
    let m = errs.len();
    let syn = errors_syndromes(errs, n, t2, m);
    let b = locator_of(errs, n, m);
    let vb = evaluator_of(errs, n, m);
    let va = error_evaluator(syn, a, t2);
    let f = coefficients(syn);
    lemma_errors_syndromes(errs, n, t2, m);
    lemma_locator_of(errs, n, m);
    lemma_recurrence_evaluator(a, len, syn, t2);
    lemma_coefficients(syn);
    lemma_coefficients(vb);
    lemma_coefficients(va);
    assert forall|k: int| 0 <= k < n implies #[trigger] product_of(a, vb)[k] == product_of(
        b,
        va,
    )[k] by {
        if k < t2 {
            // The coefficients of Λ*(x)s(x) are those of Ω*(x), and those of Λ(x)s(x) are
            // those of Ω(x).
            assert forall|i: int| 0 <= i < n implies #[trigger] a[i] == 0 || product_coef(
                b,
                f,
                k - i,
            ) == coefficients(vb)(k - i) by {
                let j = k - i;
                if j < 0 {
                    lemma_product_sum_zeros(b, f, j, 0, n);
                } else {
                    lemma_locator_product(errs, n, t2, m, j + 1);
                    lemma_extended_product(b, syn, t2, j + 1, n);
                    lemma_product_sum_range(b, f, j, n);
                    lemma_add_cancels(product_coef(b, f, j), b[j + 1]);
                    lemma_add_cancels(vb[j], b[j + 1]);
                    lemma_add_laws(b[j + 1], vb[j], 0);
                    lemma_add_laws(product_coef(b, f, j), b[j + 1], 0);
                }
            }
            lemma_double_sum_as_product(a, b, f, coefficients(vb), k, n);
            assert forall|i: int| 0 <= i < n implies #[trigger] b[i] == 0 || product_coef(
                a,
                f,
                k - i,
            ) == coefficients(va)(k - i) by {
                let j = k - i;
                if j < 0 {
                    lemma_product_sum_zeros(a, f, j, 0, n);
                }
            }
            lemma_double_sum_as_product(b, a, f, coefficients(va), k, n);
            lemma_double_sum_swap(a, b, f, k, n, n);
        } else {
            let dvb: nat = if m > 0 { (m - 1) as nat } else { 0 };
            let dva: nat = if len > 0 { (len - 1) as nat } else { 0 };
            lemma_product_degree(a, len, vb, dvb, k);
            lemma_product_degree(b, m, va, dva, k);
        }
    }
    assert(product_of(a, vb) =~= product_of(b, va));
}

/// Every root of the locator polynomial of the errors is a root of any recurrence for
/// their syndromes that is no longer than the number of errors.
pub proof fn lemma_recurrence_roots(
    a: Seq<u8>,
    len: nat,
    errs: Seq<(nat, u8)>,
    n: nat,
    t2: nat,
    l: int,
)
    requires
        is_short_recurrence(a, len, errs, n, t2),
        0 <= l < errs.len(),
    ensures
        poly_eval(a, root_of(errs[l].0)) == 0,
{
    let m = errs.len();
    let y = root_of(errs[l].0);
    let syn = errors_syndromes(errs, n, t2, m);
    let b = locator_of(errs, n, m);
    let vb = evaluator_of(errs, n, m);
    let va = error_evaluator(syn, a, t2);
    lemma_factor_at_root(errs[l].0, errs[l].0);
    lemma_errors_syndromes(errs, n, t2, m);
    lemma_locator_of(errs, n, m);
    lemma_recurrence_evaluator(a, len, syn, t2);
    lemma_products_agree(a, len, errs, n, t2);
    assert(product_of(a, vb) =~= product_of(vb, a)) by {
        assert forall|k: int| 0 <= k < n implies #[trigger] product_of(a, vb)[k] == product_of(
            vb,
            a,
        )[k] by {
            lemma_product_commutes(a, vb, k);
        }
    }
    lemma_evaluator_product_value(errs, n, m, a, len, y);
    lemma_locator_product_value(errs, n, m, va, len, y);
    lemma_locator_at_root(errs, n, l, m);
    lemma_pattern_at_root(errs, n, l, m);
    lemma_values_range(errs, n, y, m);
    lemma_eval_add(a, a, y);
    lemma_eval_add(va, va, y);
    lemma_mul_basics(0, poly_eval(va, y));
    lemma_mul_basics(errs[l].1, slope_at(errs, y, m));
    lemma_mul_basics(evaluator_at(errs, y, m), poly_eval(a, y));
}

/// The quotient of p(x) by 1 + cx, as a power series, up to the length of `p`.
pub open spec fn quotient_by_linear(p: Seq<u8>, c: u8) -> Seq<u8> {
    Seq::new(p.len(), |k: int| word_eval(p, c, (k + 1) as nat))
}

/// The quotient times 1 + cx is the polynomial again.
proof fn lemma_quotient(p: Seq<u8>, c: u8)
    requires
        0 < p.len(),
        in_field(p),
        c < 64,
    ensures
        in_field(quotient_by_linear(p, c)),
        quotient_by_linear(p, c)[0] == p[0],
        times_linear(quotient_by_linear(p, c), c) == p,
        forall|k: int|
            1 <= k < p.len() ==> #[trigger] quotient_by_linear(p, c)[k] == gf_add(
                gf_mul(quotient_by_linear(p, c)[k - 1], c),
                p[k],
            ),
{
    let n = p.len();
    let q = quotient_by_linear(p, c);
    assert forall|k: int| 0 <= k < n implies #[trigger] q[k] < 64 by {
        lemma_word_eval_range(p, c, (k + 1) as nat);
    }
    assert(q[0] == p[0]) by {
        reveal_with_fuel(word_eval, 2);
        lemma_mul_basics(0, c);
        lemma_add_laws(p[0], 0, 0);
    }
    lemma_times_linear(q, c, n);
    assert forall|k: int| 0 <= k < n implies #[trigger] times_linear(q, c)[k] == p[k] by {
        if k >= 1 {
            lemma_mul_basics(q[k - 1], c);
            lemma_add_cancels(p[k], gf_mul(q[k - 1], c));
            lemma_add_laws(gf_mul(q[k - 1], c), p[k], 0);
        }
    }
    assert(times_linear(q, c) =~= p);
}

/// If the last coefficient of the quotient is zero, so is every coefficient from the
/// degree of p(x) on.
proof fn lemma_quotient_degree(p: Seq<u8>, c: u8, deg: nat, k: int)
    requires
        0 < p.len(),
        in_field(p),
        0 < c < 64,
        forall|j: int| deg < j < p.len() ==> #[trigger] p[j] == 0,
        quotient_by_linear(p, c)[p.len() - 1] == 0,
        deg <= k < p.len(),
    ensures
        quotient_by_linear(p, c)[k] == 0,
    decreases p.len() - k,
{
    let q = quotient_by_linear(p, c);
    if k < p.len() - 1 {
        lemma_quotient_degree(p, c, deg, k + 1);
        lemma_quotient(p, c);
        assert(q[k + 1] == gf_add(gf_mul(q[k], c), p[k + 1]));
        assert(p[k + 1] == 0);
        lemma_mul_basics(q[k], c);
        lemma_add_laws(gf_mul(q[k], c), 0, 0);
    }
}

/// A polynomial with the constant term 1 whose degree is at most `m` and that vanishes at
/// the roots that belong to the first `m` errors is the locator polynomial of these
/// errors.
pub proof fn lemma_roots_determine(p: Seq<u8>, errs: Seq<(nat, u8)>, n: nat, m: nat)
    requires
        errors_valid(errs, n),
        m <= errs.len(),
        m < n,
        p.len() == n,
        in_field(p),
        p[0] == 1,
        forall|j: int| m < j < n ==> #[trigger] p[j] == 0,
        forall|l: int| 0 <= l < m ==> poly_eval(p, root_of(#[trigger] errs[l].0)) == 0,
    ensures
        p == locator_of(errs, n, m),
    decreases m,
{
    if m == 0 {
        assert(p =~= locator_of(errs, n, 0));
    } else {
        let d = errs[m - 1].0;
        let x = antilog(d as int);
        let r = root_of(d);
        let q = quotient_by_linear(p, x);
        lemma_antilog_range(d as int);
        lemma_factor_at_root(d, d);
        lemma_quotient(p, x);
        // The term that is cut off from (1 + Xx)q(x) has to vanish.
        lemma_eval_times_linear_cut(q, x, r);
        lemma_eval_add(q, q, r);
        let top = gf_mul(q[n - 1], x);
        lemma_mul_basics(q[n - 1], x);
        lemma_pow(r, n);
        lemma_mul_basics(top, gf_pow(r, n));
        lemma_mul_basics(0, poly_eval(q, r));
        lemma_add_laws(gf_mul(top, gf_pow(r, n)), 0, 0);
        assert(poly_eval(p, r) == 0) by {
            assert(errs[m - 1].0 == d);
        }
        assert(q[n - 1] == 0);
        assert forall|j: int| m - 1 < j < n implies #[trigger] q[j] == 0 by {
            lemma_quotient_degree(p, x, m, j);
        }
        // The other roots are roots of the quotient.
        assert forall|l: int| 0 <= l < m - 1 implies poly_eval(q, root_of(#[trigger] errs[l].0))
            == 0 by {
            let y = root_of(errs[l].0);
            lemma_factor_at_root(d, errs[l].0);
            lemma_eval_times_linear(q, x, y);
            lemma_eval_add(q, q, y);
            lemma_mul_basics(gf_add(1, gf_mul(x, y)), poly_eval(q, y));
            assert(poly_eval(p, root_of(errs[l].0)) == 0);
        }
        lemma_roots_determine(q, errs, n, (m - 1) as nat);
    }
}

/// The iteration finds the locator polynomial of the errors, if the errors are no more than
/// half the number of syndromes.
pub proof fn lemma_locator_found(errs: Seq<(nat, u8)>, n: nat, t2: nat)
    requires
        errors_valid(errs, n),
        2 <= t2,
        2 * t2 <= n,
        2 * errs.len() <= t2,
    ensures
        error_locator(errors_syndromes(errs, n, t2, errs.len()), t2) == locator_of(
            errs,
            n,
            errs.len(),
        ),
{
    let m = errs.len();
    let syn = errors_syndromes(errs, n, t2, m);
    let a = error_locator(syn, t2);
    let len = recurrence_length(syn, t2);
    lemma_errors_syndromes(errs, n, t2, m);
    lemma_locator_is_recurrence(syn, t2);
    lemma_locator_recurrence(errs, n, t2);
    lemma_locator_is_shortest(syn, t2, locator_of(errs, n, m), m);
    assert forall|l: int| 0 <= l < m implies poly_eval(a, root_of(#[trigger] errs[l].0))
        == 0 by {
        lemma_recurrence_roots(a, len, errs, n, t2, l);
    }
    lemma_roots_determine(a, errs, n, m);
}

} // verus!
