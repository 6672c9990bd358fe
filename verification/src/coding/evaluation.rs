//! The values of sums, multiples and products of polynomials.

use vstd::prelude::*;
use crate::coding::algebra::{
    lemma_add_interchange, lemma_add_laws, lemma_mul_associative, lemma_mul_basics,
    lemma_mul_distributive,
};
use crate::coding::correction::{lemma_times_linear, times_linear};
use crate::coding::galois::{gf_add, gf_mul};
use crate::coding::polynomial::{poly_add, poly_deriv, poly_eval, poly_scale};
use crate::coding::reed_solomon::systematic::in_field;

verus! {

/// The power y<sup>j</sup> of a field element.
pub open spec fn gf_pow(y: u8, j: nat) -> u8
    decreases j,
{
    if j == 0 {
        1
    } else {
        gf_mul(gf_pow(y, (j - 1) as nat), y)
    }
}

/// A power of a field element is a field element, and not zero unless the element is.
pub proof fn lemma_pow(y: u8, j: nat)
    requires
        y < 64,
    ensures
        gf_pow(y, j) < 64,
        y != 0 ==> gf_pow(y, j) != 0,
    decreases j,
{
    if j > 0 {
        lemma_pow(y, (j - 1) as nat);
        lemma_mul_basics(gf_pow(y, (j - 1) as nat), y);
    }
}

/// The value at `y` of the polynomial without its terms below x<sup>j</sup>, divided by
/// x<sup>j</sup>.
pub open spec fn tail_eval(c: Seq<u8>, y: u8, j: int) -> u8 {
    poly_eval(c.skip(j), y)
}

/// Horner's rule: the value of the terms from x<sup>j</sup> on is the coefficient of
/// x<sup>j</sup> plus y times the value of the terms from x<sup>j+1</sup> on.
pub proof fn lemma_tail_eval(c: Seq<u8>, y: u8, j: int)
    requires
        0 <= j <= c.len(),
    ensures
        tail_eval(c, y, 0) == poly_eval(c, y),
        j == c.len() ==> tail_eval(c, y, j) == 0,
        j < c.len() ==> tail_eval(c, y, j) == gf_add(gf_mul(tail_eval(c, y, j + 1), y), c[j]),
{
    assert(c.skip(0) =~= c);
    if j < c.len() {
        assert(c.skip(j).skip(1) =~= c.skip(j + 1));
    }
}

/// A value of a polynomial over the field at a field element is a field element.
pub proof fn lemma_tail_eval_range(c: Seq<u8>, y: u8, j: int)
    requires
        in_field(c),
        y < 64,
        0 <= j <= c.len(),
    ensures
        tail_eval(c, y, j) < 64,
    decreases c.len() - j,
{
    lemma_tail_eval(c, y, j);
    if j < c.len() {
        lemma_tail_eval_range(c, y, j + 1);
        lemma_mul_basics(tail_eval(c, y, j + 1), y);
        lemma_add_laws(gf_mul(tail_eval(c, y, j + 1), y), c[j], 0);
    }
}

/// The value of a sum of polynomials is the sum of their values.
pub proof fn lemma_tail_eval_add(a: Seq<u8>, b: Seq<u8>, y: u8, j: int)
    requires
        a.len() == b.len(),
        in_field(a),
        in_field(b),
        y < 64,
        0 <= j <= a.len(),
    ensures
        tail_eval(poly_add(a, b), y, j) == gf_add(tail_eval(a, y, j), tail_eval(b, y, j)),
    decreases a.len() - j,
{
    lemma_tail_eval(a, y, j);
    lemma_tail_eval(b, y, j);
    lemma_tail_eval(poly_add(a, b), y, j);
    if j < a.len() {
        lemma_tail_eval_add(a, b, y, j + 1);
        lemma_tail_eval_range(a, y, j + 1);
        lemma_tail_eval_range(b, y, j + 1);
        let ea = tail_eval(a, y, j + 1);
        let eb = tail_eval(b, y, j + 1);
        lemma_mul_distributive(y, ea, eb);
        lemma_add_interchange(gf_mul(ea, y), gf_mul(eb, y), a[j], b[j]);
    } else {
        lemma_add_laws(0, 0, 0);
    }
}

/// The value of a multiple of a polynomial is the multiple of its value.
pub proof fn lemma_tail_eval_scale(a: Seq<u8>, c: u8, y: u8, j: int)
    requires
        in_field(a),
        c < 64,
        y < 64,
        0 <= j <= a.len(),
    ensures
        tail_eval(poly_scale(a, c), y, j) == gf_mul(tail_eval(a, y, j), c),
    decreases a.len() - j,
{
    lemma_tail_eval(a, y, j);
    lemma_tail_eval(poly_scale(a, c), y, j);
    if j < a.len() {
        lemma_tail_eval_scale(a, c, y, j + 1);
        lemma_tail_eval_range(a, y, j + 1);
        let e = tail_eval(a, y, j + 1);
        // (ec)y = (ey)c
        lemma_mul_associative(e, c, y);
        lemma_mul_basics(c, y);
        lemma_mul_associative(e, y, c);
        lemma_mul_basics(e, y);
        lemma_mul_distributive(c, gf_mul(e, y), a[j]);
    } else {
        lemma_mul_basics(0, c);
    }
}

/// The value of (1 + cx)q(x), from the term x<sup>j</sup> on: that of q(x), plus c times
/// that of q(x) from one term lower, less what the cut off term of the product
/// would add.
proof fn lemma_tail_eval_times_linear(q: Seq<u8>, c: u8, y: u8, j: int)
    requires
        0 < q.len(),
        in_field(q),
        c < 64,
        y < 64,
        1 <= j <= q.len(),
    ensures
        tail_eval(times_linear(q, c), y, j) == gf_add(
            gf_add(tail_eval(q, y, j), gf_mul(tail_eval(q, y, j - 1), c)),
            gf_mul(gf_mul(q[q.len() - 1], c), gf_pow(y, (q.len() - j) as nat)),
        ),
    decreases q.len() - j,
{
    let n = q.len();
    let t = times_linear(q, c);
    let top = gf_mul(q[n - 1], c);
    lemma_times_linear(q, c, n);
    lemma_mul_basics(q[n - 1], c);
    lemma_tail_eval(q, y, j);
    lemma_tail_eval(q, y, j - 1);
    lemma_tail_eval(t, y, j);
    lemma_tail_eval_range(q, y, j);
    lemma_tail_eval_range(q, y, j - 1);
    lemma_pow(y, (n - j) as nat);
    if j == n {
        lemma_tail_eval(q, y, n as int);
        lemma_mul_basics(0, y);
        lemma_mul_basics(top, 1);
        lemma_add_laws(q[n - 1], 0, 0);
        lemma_add_laws(top, top, 0);
        lemma_add_laws(0, 0, 0);
        assert(tail_eval(q, y, n - 1) == q[n - 1]);
    } else {
        lemma_tail_eval_times_linear(q, c, y, j + 1);
        lemma_tail_eval(q, y, j + 1);
        lemma_tail_eval_range(q, y, j + 1);
        lemma_pow(y, (n - j - 1) as nat);
        let e1 = tail_eval(q, y, j + 1);
        let e0 = tail_eval(q, y, j);
        let rest = gf_mul(top, gf_pow(y, (n - j - 1) as nat));
        lemma_mul_basics(top, gf_pow(y, (n - j - 1) as nat));
        lemma_mul_associative(top, gf_pow(y, (n - j - 1) as nat), y);
        // ((e1 + e0 c) + rest) y = e1 y + (e0 y) c + rest y
        lemma_mul_basics(e0, c);
        lemma_mul_basics(e1, y);
        lemma_mul_basics(e0, y);
        lemma_add_laws(e1, gf_mul(e0, c), 0);
        lemma_mul_distributive(y, gf_add(e1, gf_mul(e0, c)), rest);
        lemma_mul_distributive(y, e1, gf_mul(e0, c));
        lemma_mul_associative(e0, c, y);
        lemma_mul_basics(c, y);
        lemma_mul_associative(e0, y, c);
        // e0 = e1 y + q[j], and the value one term lower is e0 y + q[j - 1].
        lemma_mul_basics(q[j - 1], c);
        lemma_mul_distributive(c, gf_mul(e0, y), q[j - 1]);
        let a = gf_mul(e1, y);
        let b = gf_mul(gf_mul(e0, y), c);
        let r = gf_mul(rest, y);
        let qj = q[j];
        let qc = gf_mul(q[j - 1], c);
        lemma_mul_basics(gf_mul(e0, y), c);
        lemma_mul_basics(rest, y);
        assert(((a ^ b) ^ r) ^ (qj ^ qc) == ((a ^ qj) ^ (b ^ qc)) ^ r) by (bit_vector);
    }
}

/// The value of (1 + cx)q(x) at y is 1 + cy times the value of q(x), less what the cut
/// off term of the product would add.
pub proof fn lemma_eval_times_linear_cut(q: Seq<u8>, c: u8, y: u8)
    requires
        0 < q.len(),
        in_field(q),
        c < 64,
        y < 64,
    ensures
        poly_eval(times_linear(q, c), y) == gf_add(
            gf_mul(gf_add(1, gf_mul(c, y)), poly_eval(q, y)),
            gf_mul(gf_mul(q[q.len() - 1], c), gf_pow(y, q.len())),
        ),
{
    let n = q.len();
    let t = times_linear(q, c);
    let top = gf_mul(q[n - 1], c);
    lemma_times_linear(q, c, n);
    lemma_tail_eval(q, y, 0);
    lemma_tail_eval(t, y, 0);
    lemma_tail_eval(q, y, 1);
    lemma_tail_eval_range(q, y, 0);
    lemma_tail_eval_range(q, y, 1);
    lemma_tail_eval_times_linear(q, c, y, 1);
    let e0 = tail_eval(q, y, 0);
    let e1 = tail_eval(q, y, 1);
    let rest = gf_mul(top, gf_pow(y, (n - 1) as nat));
    lemma_mul_basics(q[n - 1], c);
    lemma_pow(y, (n - 1) as nat);
    lemma_mul_basics(top, gf_pow(y, (n - 1) as nat));
    lemma_mul_associative(top, gf_pow(y, (n - 1) as nat), y);
    lemma_mul_basics(e0, c);
    lemma_add_laws(e1, gf_mul(e0, c), 0);
    // ((e1 + e0 c) + rest) y + q[0] = (e1 y + q[0]) + (c y) e0 + rest y
    lemma_mul_distributive(y, gf_add(e1, gf_mul(e0, c)), rest);
    lemma_mul_distributive(y, e1, gf_mul(e0, c));
    lemma_mul_associative(e0, c, y);
    lemma_mul_basics(c, y);
    lemma_mul_basics(gf_mul(c, y), e0);
    lemma_mul_basics(e1, y);
    lemma_mul_basics(1, e0);
    lemma_mul_distributive(e0, 1, gf_mul(c, y));
    let a = gf_mul(e1, y);
    let b = gf_mul(e0, gf_mul(c, y));
    let r = gf_mul(rest, y);
    let q0 = q[0];
    lemma_mul_basics(e0, gf_mul(c, y));
    lemma_mul_basics(rest, y);
    assert(((a ^ b) ^ r) ^ q0 == ((a ^ q0) ^ b) ^ r) by (bit_vector);
}

/// The value of (1 + cx)q(x) at y is 1 + cy times the value of q(x), if the product has no
/// term that is cut off.
pub proof fn lemma_eval_times_linear(q: Seq<u8>, c: u8, y: u8)
    requires
        0 < q.len(),
        in_field(q),
        c < 64,
        y < 64,
        q[q.len() - 1] == 0,
    ensures
        poly_eval(times_linear(q, c), y) == gf_mul(gf_add(1, gf_mul(c, y)), poly_eval(q, y)),
{
    lemma_eval_times_linear_cut(q, c, y);
    lemma_tail_eval(q, y, 0);
    lemma_tail_eval_range(q, y, 0);
    lemma_mul_basics(0, c);
    lemma_pow(y, q.len());
    lemma_mul_basics(0, gf_pow(y, q.len()));
    lemma_mul_basics(c, y);
    lemma_add_laws(1, gf_mul(c, y), 0);
    lemma_mul_basics(gf_add(1, gf_mul(c, y)), poly_eval(q, y));
    lemma_add_laws(gf_mul(gf_add(1, gf_mul(c, y)), poly_eval(q, y)), 0, 0);
}

/// The value of a sum of polynomials is the sum of their values.
pub proof fn lemma_eval_add(a: Seq<u8>, b: Seq<u8>, y: u8)
    requires
        a.len() == b.len(),
        in_field(a),
        in_field(b),
        y < 64,
    ensures
        poly_eval(poly_add(a, b), y) == gf_add(poly_eval(a, y), poly_eval(b, y)),
        poly_eval(a, y) < 64,
{
    lemma_tail_eval_add(a, b, y, 0);
    lemma_tail_eval(a, y, 0);
    lemma_tail_eval(b, y, 0);
    lemma_tail_eval(poly_add(a, b), y, 0);
    lemma_tail_eval_range(a, y, 0);
}

/// The value of a multiple of a polynomial is the multiple of its value.
pub proof fn lemma_eval_scale(a: Seq<u8>, c: u8, y: u8)
    requires
        in_field(a),
        c < 64,
        y < 64,
    ensures
        poly_eval(poly_scale(a, c), y) == gf_mul(poly_eval(a, y), c),
{
    lemma_tail_eval_scale(a, c, y, 0);
    lemma_tail_eval(a, y, 0);
    lemma_tail_eval(poly_scale(a, c), y, 0);
}

/// The derivative of (1 + cx)p(x) is 1 + cx times the derivative of p(x), plus c times
/// p(x).
pub proof fn lemma_deriv_times_linear(p: Seq<u8>, c: u8)
    requires
        0 < p.len(),
        in_field(p),
        c < 64,
        p[p.len() - 1] == 0,
    ensures
        poly_deriv(times_linear(p, c)) == poly_add(
            times_linear(poly_deriv(p), c),
            poly_scale(p, c),
        ),
        in_field(poly_deriv(p)),
        poly_deriv(p)[p.len() - 1] == 0,
{
    let n = p.len();
    let d = poly_deriv(p);
    assert(in_field(d));
    lemma_times_linear(p, c, n);
    lemma_times_linear(d, c, n);
    let lhs = poly_deriv(times_linear(p, c));
    let rhs = poly_add(times_linear(d, c), poly_scale(p, c));
    assert forall|i: int| 0 <= i < n implies lhs[i] == rhs[i] by {
        lemma_mul_basics(p[i], c);
        lemma_mul_basics(0, c);
        lemma_add_laws(gf_mul(p[i], c), 0, 0);
        lemma_add_laws(0, 0, 0);
        if i % 2 == 0 {
            if i + 1 < n {
                lemma_add_laws(p[i + 1], 0, 0);
            }
        }
    }
    assert(lhs =~= rhs);
}

} // verus!
