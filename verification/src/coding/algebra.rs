//! The laws of arithmetic in the 64-element field.
//!
//! The field's multiplication is defined by its tables of powers and logarithms. Here it
//! is shown to be the multiplication of polynomials over GF(2) modulo x<sup>6</sup> + x +
//! 1, on the bits of the elements, from which the laws that mix addition and
//! multiplication follow.

use vstd::prelude::*;
use crate::coding::galois::{
    antilog, gf_add, gf_div, gf_inv, gf_mul, lemma_antilog_log, lemma_antilog_range,
    lemma_antilog_step, lemma_log_antilog, lemma_log_range, log, times_alpha,
};

verus! {

/// The product of two field elements as polynomials over GF(2), reduced by x<sup>6</sup> +
/// x + 1: the sum of a, αa, ..., α<sup>5</sup>a over the bits that are set in b.
pub open spec fn gf_mul_bits(a: u8, b: u8) -> u8 {
    let a1 = times_alpha(a);
    let a2 = times_alpha(a1);
    let a3 = times_alpha(a2);
    let a4 = times_alpha(a3);
    let a5 = times_alpha(a4);
    let t0 = if b & 0x01 != 0 { a } else { 0 };
    let t1 = if b & 0x02 != 0 { a1 } else { 0 };
    let t2 = if b & 0x04 != 0 { a2 } else { 0 };
    let t3 = if b & 0x08 != 0 { a3 } else { 0 };
    let t4 = if b & 0x10 != 0 { a4 } else { 0 };
    let t5 = if b & 0x20 != 0 { a5 } else { 0 };
    t0 ^ t1 ^ t2 ^ t3 ^ t4 ^ t5
}

proof fn lemma_bits_basics(a: u8, b: u8)
    by (bit_vector)
    requires
        a < 64,
        b < 64,
    ensures
        gf_mul_bits(a, b) < 64,
        gf_mul_bits(a, 0) == 0,
        gf_mul_bits(0, b) == 0,
        gf_mul_bits(a, 1) == a,
        gf_mul_bits(a, b) == gf_mul_bits(b, a),
        times_alpha(b) < 64,
        gf_mul_bits(a, times_alpha(b)) == times_alpha(gf_mul_bits(a, b)),
{
}

proof fn lemma_bits_distributive(a: u8, b: u8, c: u8)
    by (bit_vector)
    requires
        a < 64,
        b < 64,
        c < 64,
    ensures
        gf_mul_bits(a, b ^ c) == gf_mul_bits(a, b) ^ gf_mul_bits(a, c),
{
}

proof fn lemma_xor_laws(a: u8, b: u8, c: u8)
    by (bit_vector)
    ensures
        a ^ b == b ^ a,
        (a ^ b) ^ c == a ^ (b ^ c),
        a ^ a == 0,
        a ^ 0 == a,
        a < 64 && b < 64 ==> a ^ b < 64,
{
}

/// The sum of two field elements without bit operations: bit by bit, the sum of the two
/// bits modulo 2.
pub open spec fn gf_add_arith(a: int, b: int) -> int {
    (a + b) % 2 + 2 * ((a / 2 + b / 2) % 2) + 4 * ((a / 4 + b / 4) % 2) + 8 * ((a / 8 + b / 8)
        % 2) + 16 * ((a / 16 + b / 16) % 2) + 32 * ((a / 32 + b / 32) % 2)
}

proof fn lemma_bits_add_arith(a: u8, b: u8)
    by (bit_vector)
    requires
        a < 64,
        b < 64,
    ensures
        a ^ b == (a + b) % 2 + 2 * ((a / 2 + b / 2) % 2) + 4 * ((a / 4 + b / 4) % 2) + 8 * ((a / 8
            + b / 8) % 2) + 16 * ((a / 16 + b / 16) % 2) + 32 * ((a / 32 + b / 32) % 2),
{
}

/// Addition can be computed without bit operations.
pub proof fn lemma_add_arith(a: u8, b: u8)
    requires
        a < 64,
        b < 64,
    ensures
        gf_add(a, b) == gf_add_arith(a as int, b as int),
{
    lemma_bits_add_arith(a, b);
}

/// Two sums can be added term by term.
pub proof fn lemma_add_interchange(a: u8, b: u8, c: u8, d: u8)
    ensures
        gf_add(gf_add(a, b), gf_add(c, d)) == gf_add(gf_add(a, c), gf_add(b, d)),
{
    assert((a ^ b) ^ (c ^ d) == (a ^ c) ^ (b ^ d)) by (bit_vector);
}

/// Multiplying by a power of α on the tables is multiplying on the bits.
proof fn lemma_mul_power_is_bits(a: u8, j: int)
    requires
        0 < a < 64,
        0 <= j < 63,
    ensures
        gf_mul(a, antilog(j)) == gf_mul_bits(a, antilog(j)),
    decreases j,
{
    lemma_log_range(a);
    lemma_antilog_range(j);
    lemma_log_antilog(j);
    if j == 0 {
        lemma_antilog_step(0);
        lemma_antilog_log(a);
        lemma_bits_basics(a, 1);
    } else {
        lemma_mul_power_is_bits(a, j - 1);
        lemma_antilog_range(j - 1);
        lemma_log_antilog(j - 1);
        lemma_antilog_step(log(a) + j - 1);
        lemma_antilog_step(j - 1);
        lemma_bits_basics(a, antilog(j - 1));
    }
}

/// The product by the tables is the product of polynomials over GF(2) modulo
/// x<sup>6</sup> + x + 1.
pub proof fn lemma_mul_is_bits(a: u8, b: u8)
    requires
        a < 64,
        b < 64,
    ensures
        gf_mul(a, b) == gf_mul_bits(a, b),
{
    lemma_bits_basics(a, b);
    if a != 0 && b != 0 {
        lemma_log_range(b);
        lemma_antilog_log(b);
        lemma_mul_power_is_bits(a, log(b));
    }
}

/// Addition is commutative and associative, zero is its identity, and every element is
/// its own negative.
pub proof fn lemma_add_laws(a: u8, b: u8, c: u8)
    ensures
        gf_add(a, b) == gf_add(b, a),
        gf_add(gf_add(a, b), c) == gf_add(a, gf_add(b, c)),
        gf_add(a, a) == 0,
        gf_add(a, 0) == a,
        gf_add(0, a) == a,
        a < 64 && b < 64 ==> gf_add(a, b) < 64,
{
    lemma_xor_laws(a, b, c);
    lemma_xor_laws(0, a, c);
}

/// A product is a field element. Zero absorbs, and one is the identity of multiplication.
pub proof fn lemma_mul_basics(a: u8, b: u8)
    requires
        a < 64,
        b < 64,
    ensures
        gf_mul(a, b) < 64,
        gf_mul(a, 0) == 0,
        gf_mul(0, b) == 0,
        gf_mul(a, 1) == a,
        gf_mul(1, b) == b,
        gf_mul(a, b) == gf_mul(b, a),
        gf_mul(a, b) == 0 <==> a == 0 || b == 0,
{
    lemma_mul_is_bits(a, b);
    lemma_mul_is_bits(a, 1);
    lemma_mul_is_bits(1, b);
    lemma_mul_is_bits(b, a);
    lemma_bits_basics(a, b);
    lemma_bits_basics(b, a);
    lemma_bits_basics(1, b);
    if a != 0 && b != 0 {
        lemma_log_range(a);
        lemma_log_range(b);
        lemma_antilog_range(log(a) + log(b));
    }
}

/// Multiplying by a power of α is associative.
proof fn lemma_mul_power_associative(a: u8, b: u8, j: int)
    requires
        a < 64,
        b < 64,
        0 <= j < 63,
    ensures
        gf_mul_bits(gf_mul_bits(a, b), antilog(j)) == gf_mul_bits(
            a,
            gf_mul_bits(b, antilog(j)),
        ),
    decreases j,
{
    lemma_bits_basics(a, b);
    lemma_antilog_range(j);
    lemma_antilog_step(0);
    if j == 0 {
        lemma_bits_basics(gf_mul_bits(a, b), 1);
        lemma_bits_basics(b, 1);
    } else {
        lemma_mul_power_associative(a, b, j - 1);
        lemma_antilog_range(j - 1);
        lemma_antilog_step(j - 1);
        let c = antilog(j - 1);
        lemma_bits_basics(gf_mul_bits(a, b), c);
        lemma_bits_basics(b, c);
        lemma_bits_basics(a, gf_mul_bits(b, c));
    }
}

/// Multiplication is associative.
pub proof fn lemma_mul_associative(a: u8, b: u8, c: u8)
    requires
        a < 64,
        b < 64,
        c < 64,
    ensures
        gf_mul(gf_mul(a, b), c) == gf_mul(a, gf_mul(b, c)),
{
    lemma_mul_basics(a, b);
    lemma_mul_basics(b, c);
    lemma_mul_is_bits(a, b);
    lemma_mul_is_bits(b, c);
    lemma_mul_is_bits(gf_mul(a, b), c);
    lemma_mul_is_bits(a, gf_mul(b, c));
    if c != 0 {
        lemma_log_range(c);
        lemma_antilog_log(c);
        lemma_mul_power_associative(a, b, log(c));
    } else {
        lemma_mul_basics(gf_mul(a, b), 0);
        lemma_mul_basics(a, 0);
    }
}

/// Multiplication distributes over addition.
pub proof fn lemma_mul_distributive(a: u8, b: u8, c: u8)
    requires
        a < 64,
        b < 64,
        c < 64,
    ensures
        gf_mul(a, gf_add(b, c)) == gf_add(gf_mul(a, b), gf_mul(a, c)),
        gf_mul(gf_add(b, c), a) == gf_add(gf_mul(b, a), gf_mul(c, a)),
{
    lemma_add_laws(b, c, 0);
    lemma_mul_is_bits(a, gf_add(b, c));
    lemma_mul_is_bits(a, b);
    lemma_mul_is_bits(a, c);
    lemma_bits_distributive(a, b, c);
    lemma_mul_basics(a, gf_add(b, c));
    lemma_mul_basics(a, b);
    lemma_mul_basics(a, c);
}

/// Every nonzero element has an inverse, and dividing is multiplying by the inverse.
pub proof fn lemma_inverse(a: u8, b: u8)
    requires
        a < 64,
        0 < b < 64,
    ensures
        0 < gf_inv(b) < 64,
        gf_mul(b, gf_inv(b)) == 1,
        gf_div(a, b) < 64,
        gf_div(a, b) == gf_mul(a, gf_inv(b)),
        gf_mul(gf_div(a, b), b) == a,
{
    lemma_log_range(b);
    let lb = log(b);
    let e = (63 - lb) % 63;
    lemma_antilog_range(63 - lb);
    lemma_antilog_mod(63 - lb);
    lemma_log_antilog(e);
    lemma_antilog_step(0);
    lemma_antilog_mod(lb + e);
    if a != 0 {
        lemma_log_range(a);
        lemma_antilog_log(a);
        let la = log(a);
        let q = (63 + la - lb) % 63;
        lemma_antilog_range(63 + la - lb);
        lemma_antilog_mod(63 + la - lb);
        lemma_log_antilog(q);
        lemma_antilog_mod(la + e);
        lemma_antilog_mod(q + lb);
        assert((la + e) % 63 == q);
        assert((q + lb) % 63 == la);
    }
}

/// Exponents can be reduced modulo 63 before or after they are added.
proof fn lemma_mod_add(x: int, y: int)
    requires
        0 <= x,
        0 <= y,
    ensures
        0 <= x % 63 < 63,
        (x % 63 + y % 63) % 63 == (x + y) % 63,
{
}

/// The logarithm of a power of α is its exponent modulo 63.
pub proof fn lemma_log_power(x: int)
    requires
        0 <= x,
    ensures
        0 < antilog(x) < 64,
        log(antilog(x)) == x % 63,
{
    lemma_antilog_range(x);
    lemma_antilog_mod(x);
    lemma_log_antilog(x % 63);
}

/// Multiplying powers of α adds their exponents.
pub proof fn lemma_mul_powers(x: int, y: int)
    requires
        0 <= x,
        0 <= y,
    ensures
        gf_mul(antilog(x), antilog(y)) == antilog(x + y),
{
    lemma_log_power(x);
    lemma_log_power(y);
    lemma_mod_add(x, y);
    lemma_mod_add(y, x);
    let e = x % 63 + y % 63;
    lemma_antilog_mod(e);
    lemma_antilog_mod(x + y);
}

/// Two powers of α are equal only if their exponents are equal modulo 63.
pub proof fn lemma_powers_equal(x: int, y: int)
    requires
        0 <= x,
        0 <= y,
    ensures
        antilog(x) == antilog(y) <==> x % 63 == y % 63,
{
    lemma_log_power(x);
    lemma_log_power(y);
    lemma_antilog_mod(x);
    lemma_antilog_mod(y);
}

/// Dividing a product by one of its factors gives the other factor.
pub proof fn lemma_div_cancels(a: u8, b: u8)
    requires
        a < 64,
        0 < b < 64,
    ensures
        gf_div(gf_mul(a, b), b) == a,
        gf_div(gf_mul(b, a), b) == a,
        gf_div(a, 1) == a,
{
    lemma_mul_basics(a, b);
    lemma_inverse(gf_mul(a, b), b);
    lemma_mul_associative(a, b, gf_inv(b));
    lemma_inverse(a, 1);
    lemma_mul_basics(gf_div(a, 1), 1);
}

/// Two elements are equal if and only if their sum is zero.
pub proof fn lemma_add_cancels(a: u8, b: u8)
    ensures
        gf_add(a, b) == 0 <==> a == b,
        gf_add(gf_add(a, b), b) == a,
        gf_add(b, gf_add(a, b)) == a,
        gf_add(a, gf_add(a, b)) == b,
{
    assert((a ^ b == 0 <==> a == b) && (a ^ b) ^ b == a && b ^ (a ^ b) == a && a ^ (a ^ b) == b)
        by (bit_vector);
}

/// Only the exponent modulo 63 matters to a power of α.
pub proof fn lemma_antilog_mod(p: int)
    requires
        0 <= p,
    ensures
        antilog(p) == antilog(p % 63),
{
    reveal(antilog);
    assert((p % 63) % 63 == p % 63);
}

} // verus!
