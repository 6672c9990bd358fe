//! Arithmetic in the 64-element Galois field GF(2<sup>6</sup>).
//!
//! The field is GF(2)[x] / (x<sup>6</sup> + x + 1). A field element is written as the six
//! coefficient bits of its residue, and α = x = `0b000010` generates the 63 nonzero elements.

use vstd::prelude::*;

verus! {

/// Number of nonzero field elements, which is the order of α.
pub const FIELD_ORDER: usize = 63;

/// Bit pattern of each power of α: entry p holds α<sup>p</sup>.
pub const CODEWORDS: [u8; 63] = [
    0o01, 0o02, 0o04, 0o10, 0o20, 0o40, 0o03, 0o06, 0o14,
    0o30, 0o60, 0o43, 0o05, 0o12, 0o24, 0o50, 0o23, 0o46,
    0o17, 0o36, 0o74, 0o73, 0o65, 0o51, 0o21, 0o42, 0o07,
    0o16, 0o34, 0o70, 0o63, 0o45, 0o11, 0o22, 0o44, 0o13,
    0o26, 0o54, 0o33, 0o66, 0o57, 0o35, 0o72, 0o67, 0o55,
    0o31, 0o62, 0o47, 0o15, 0o32, 0o64, 0o53, 0o25, 0o52,
    0o27, 0o56, 0o37, 0o76, 0o77, 0o75, 0o71, 0o61, 0o41,
];

/// Discrete logarithm of each nonzero bit pattern: entry b - 1 holds the power p with
/// α<sup>p</sup> = b.
pub const POWERS: [u8; 63] = [
    0, 1, 6, 2, 12, 7, 26, 3, 32,
    13, 35, 8, 48, 27, 18, 4, 24, 33,
    16, 14, 52, 36, 54, 9, 45, 49, 38,
    28, 41, 19, 56, 5, 62, 25, 11, 34,
    31, 17, 47, 15, 23, 53, 51, 37, 44,
    55, 40, 10, 61, 46, 30, 50, 22, 39,
    43, 29, 60, 42, 21, 20, 59, 57, 58,
];

/// α<sup>p</sup>, for any exponent p ≥ 0.
#[verifier::opaque]
pub open spec fn antilog(p: int) -> u8 {
    CODEWORDS[p % 63]
}

/// The power p in 0..63 with α<sup>p</sup> = x, for a nonzero field element x.
#[verifier::opaque]
pub open spec fn log(x: u8) -> int
    recommends
        0 < x < 64,
{
    POWERS[x - 1] as int
}

/// Sum of two field elements.
pub open spec fn gf_add(a: u8, b: u8) -> u8 {
    a ^ b
}

/// Product of two field elements.
pub open spec fn gf_mul(a: u8, b: u8) -> u8 {
    if a == 0 || b == 0 {
        0
    } else {
        antilog(log(a) + log(b))
    }
}

/// Multiplicative inverse of a nonzero field element.
pub open spec fn gf_inv(a: u8) -> u8
    recommends
        0 < a < 64,
{
    antilog(63 - log(a))
}

/// Quotient of a field element by a nonzero field element.
pub open spec fn gf_div(a: u8, b: u8) -> u8
    recommends
        0 < b < 64,
{
    if a == 0 {
        0
    } else {
        antilog(63 + log(a) - log(b))
    }
}

/// The product αa, computed on the bits of a: shift left, and reduce by x<sup>6</sup> + x +
/// 1 if the shift carried into bit six.
pub open spec fn times_alpha(a: u8) -> u8 {
    if a & 0x20 != 0 {
        ((a << 1) ^ 0x43) & 0x3f
    } else {
        (a << 1) & 0x3f
    }
}

/// Zero is the identity of addition, and every element is its own negative.
pub proof fn lemma_add_zero(a: u8)
    ensures
        gf_add(a, 0) == a,
        gf_add(0, a) == a,
        gf_add(a, a) == 0,
{
    assert(a ^ 0 == a && 0 ^ a == a && a ^ a == 0) by (bit_vector);
}

/// Every power of α is a nonzero field element.
pub proof fn lemma_antilog_range(p: int)
    requires
        0 <= p,
    ensures
        0 < antilog(p) < 64,
{
    reveal(antilog);
    reveal(log);
}

/// The logarithm of a nonzero field element is a power below 63.
pub proof fn lemma_log_range(x: u8)
    requires
        0 < x < 64,
    ensures
        0 <= log(x) < 63,
{
    reveal(antilog);
    reveal(log);
}

/// Taking the logarithm undoes raising α to a power below 63.
pub proof fn lemma_log_antilog(p: int)
    requires
        0 <= p < 63,
    ensures
        log(antilog(p)) == p,
{
    reveal(antilog);
    reveal(log);
}

/// Raising α to the logarithm of a nonzero element gives the element back.
pub proof fn lemma_antilog_log(x: u8)
    requires
        0 < x < 64,
    ensures
        antilog(log(x)) == x,
{
    reveal(antilog);
    reveal(log);
}

/// `times_alpha` on a value below 64, without bit operations.
proof fn lemma_times_alpha_arith(a: u8)
    by (bit_vector)
    requires
        a < 64,
    ensures
        times_alpha(a) == (if a < 32 {
            2 * a
        } else if (a - 32) % 2 == 0 {
            2 * (a - 32) + 3
        } else {
            2 * (a - 32) - 1
        }),
{
}

/// Each entry of the table of powers is α times the entry before it, and the table starts
/// at 1 and wraps around to 1: it lists the powers of the root x of x<sup>6</sup> + x + 1.
pub proof fn lemma_antilog_step(p: int)
    requires
        0 <= p,
    ensures
        antilog(0) == 1,
        antilog(p + 1) == times_alpha(antilog(p)),
{
    reveal(antilog);
    let q = p % 63;
    lemma_times_alpha_arith(antilog(p));
    assert((p + 1) % 63 == (if q == 62 { 0 } else { q + 1 }));
}

/// The bit patterns of a run of field elements.
pub open spec fn codeword_values(s: Seq<P25Codeword>) -> Seq<u8> {
    Seq::new(s.len(), |i: int| s[i]@)
}

/// An element of the field, held as its bit pattern.
#[derive(Clone, Copy, Debug, PartialEq, Eq, Structural)]
pub struct P25Codeword(u8);

impl P25Codeword {
    /// Only the low six bits of a field element are ever set.
    #[verifier::type_invariant]
    spec fn in_field(self) -> bool {
        self.0 < 64
    }

    /// The bit pattern of the element, as a number below 64.
    pub closed spec fn view(&self) -> u8 {
        self.0
    }

    /// The element with the given bit pattern, which must fit in six bits.
    pub fn new(bits: u8) -> (c: P25Codeword)
        requires
            bits < 64,
        ensures
            c@ == bits,
    {
        P25Codeword(bits)
    }

    /// The bit pattern of the element.
    pub fn bits(&self) -> (b: u8)
        ensures
            b == self@,
            b < 64,
    {
        proof {
            use_type_invariant(self);
        }
        self.0
    }

    /// Whether this is the additive identity.
    pub fn zero(&self) -> (z: bool)
        ensures
            z == (self@ == 0),
    {
        self.0 == 0
    }

    /// The power p of α with α<sup>p</sup> equal to this element, or `None` for zero, which
    /// is no power of α.
    pub fn power(&self) -> (p: Option<usize>)
        ensures
            self@ == 0 ==> p is None,
            self@ != 0 ==> p == Some(log(self@) as usize) && 0 <= log(self@) < 63,
    {
        proof {
            use_type_invariant(self);
            reveal(log);
        }
        if self.0 == 0 {
            None
        } else {
            let idx: usize = (self.0 - 1) as usize;
            Some(POWERS[idx] as usize)
        }
    }

    /// The element α<sup>p</sup>, for any power p: the exponent is taken modulo 63.
    pub fn for_power(power: usize) -> (c: P25Codeword)
        ensures
            c@ == antilog(power as int),
            c@ != 0,
    {
        proof {
            reveal(antilog);
        }
        P25Codeword(CODEWORDS[power % FIELD_ORDER])
    }

    /// The multiplicative inverse of this element, which must not be zero.
    pub fn invert(self) -> (c: P25Codeword)
        requires
            self@ != 0,
        ensures
            c@ == gf_inv(self@),
            c@ != 0,
    {
        match self.power() {
            Some(p) => P25Codeword::for_power(FIELD_ORDER - p),
            None => self,
        }
    }

    /// Two elements with the same bit pattern are the same element.
    pub proof fn lemma_view_injective(a: P25Codeword, b: P25Codeword)
        requires
            a@ == b@,
        ensures
            a == b,
    {
    }
}

impl Default for P25Codeword {
    /// The additive identity.
    fn default() -> (c: P25Codeword)
        ensures
            c@ == 0,
    {
        P25Codeword(0)
    }
}

impl core::ops::Add for P25Codeword {
    type Output = P25Codeword;

    /// Field addition: the exclusive or of the bit patterns.
    fn add(self, rhs: P25Codeword) -> (c: P25Codeword)
        ensures
            c@ == gf_add(self@, rhs@),
    {
        proof {
            use_type_invariant(self);
            use_type_invariant(rhs);
        }
        let a: u8 = self.0;
        let b: u8 = rhs.0;
        assert(a ^ b < 64) by (bit_vector)
            requires
                a < 64,
                b < 64,
        ;
        P25Codeword(a ^ b)
    }
}

impl vstd::std_specs::ops::AddSpecImpl for P25Codeword {
    open spec fn obeys_add_spec() -> bool {
        true
    }

    open spec fn add_req(self, rhs: P25Codeword) -> bool {
        true
    }

    closed spec fn add_spec(self, rhs: P25Codeword) -> P25Codeword {
        P25Codeword(gf_add(self.0, rhs.0))
    }
}

impl core::ops::Sub for P25Codeword {
    type Output = P25Codeword;

    /// Field subtraction, which in characteristic 2 is the same as addition.
    fn sub(self, rhs: P25Codeword) -> (c: P25Codeword)
        ensures
            c@ == gf_add(self@, rhs@),
    {
        self + rhs
    }
}

impl vstd::std_specs::ops::SubSpecImpl for P25Codeword {
    open spec fn obeys_sub_spec() -> bool {
        true
    }

    open spec fn sub_req(self, rhs: P25Codeword) -> bool {
        true
    }

    closed spec fn sub_spec(self, rhs: P25Codeword) -> P25Codeword {
        P25Codeword(gf_add(self.0, rhs.0))
    }
}

impl core::ops::Mul for P25Codeword {
    type Output = P25Codeword;

    /// Field multiplication: zero if either factor is zero, and otherwise the power of α
    /// whose exponent is the sum of the factors' logarithms.
    fn mul(self, rhs: P25Codeword) -> (c: P25Codeword)
        ensures
            c@ == gf_mul(self@, rhs@),
    {
        match (self.power(), rhs.power()) {
            (Some(p), Some(q)) => P25Codeword::for_power(p + q),
            _ => P25Codeword::default(),
        }
    }
}

impl vstd::std_specs::ops::MulSpecImpl for P25Codeword {
    open spec fn obeys_mul_spec() -> bool {
        true
    }

    open spec fn mul_req(self, rhs: P25Codeword) -> bool {
        true
    }

    closed spec fn mul_spec(self, rhs: P25Codeword) -> P25Codeword {
        P25Codeword(gf_mul(self.0, rhs.0))
    }
}

impl core::ops::Div for P25Codeword {
    type Output = P25Codeword;

    /// Field division by an element that must not be zero.
    fn div(self, rhs: P25Codeword) -> (c: P25Codeword)
        ensures
            c@ == gf_div(self@, rhs@),
    {
        match (self.power(), rhs.power()) {
            (Some(p), Some(q)) => P25Codeword::for_power(FIELD_ORDER + p - q),
            _ => P25Codeword::default(),
        }
    }
}

impl vstd::std_specs::ops::DivSpecImpl for P25Codeword {
    open spec fn obeys_div_spec() -> bool {
        true
    }

    open spec fn div_req(self, rhs: P25Codeword) -> bool {
        rhs@ != 0
    }

    closed spec fn div_spec(self, rhs: P25Codeword) -> P25Codeword {
        P25Codeword(gf_div(self.0, rhs.0))
    }
}

} // verus!
