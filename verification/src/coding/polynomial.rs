//! Polynomials over the 64-element field, with a fixed number of coefficients per code.
//!
//! A polynomial is modelled by the sequence of its coefficients' bit patterns, the
//! constant term first, and the operations are stated over such sequences.

use vstd::prelude::*;
use crate::coding::galois::{
    codeword_values, gf_add, gf_mul, lemma_add_zero, lemma_antilog_step, P25Codeword,
};

verus! {

/// Value of the polynomial with coefficients `c` at the field element `x`.
pub open spec fn poly_eval(c: Seq<u8>, x: u8) -> u8
    decreases c.len(),
{
    if c.len() == 0 {
        0
    } else {
        gf_add(gf_mul(poly_eval(c.skip(1), x), x), c[0])
    }
}

/// Degree of the polynomial with coefficients `c`: the index of its highest nonzero
/// coefficient, or `None` for the zero polynomial.
pub open spec fn poly_degree(c: Seq<u8>) -> Option<nat>
    decreases c.len(),
{
    if c.len() == 0 {
        None
    } else if c.last() != 0 {
        Some((c.len() - 1) as nat)
    } else {
        poly_degree(c.drop_last())
    }
}

/// Whether the polynomial with coefficients `c` has no term of degree `bound` or above.
pub open spec fn degree_below(c: Seq<u8>, bound: nat) -> bool {
    forall|i: int| bound <= i < c.len() ==> #[trigger] c[i] == 0
}

/// The zero polynomial with `len` coefficients.
pub open spec fn poly_zero(len: nat) -> Seq<u8> {
    Seq::new(len, |i: int| 0u8)
}

/// The first `len` coefficients of x<sup>n</sup>.
pub open spec fn poly_unit_power(len: nat, n: nat) -> Seq<u8> {
    Seq::new(len, |i: int| if i == n { 1u8 } else { 0u8 })
}

/// The given coefficients, cut off or filled up with zeros to `len` coefficients.
pub open spec fn poly_from(len: nat, init: Seq<u8>) -> Seq<u8> {
    Seq::new(len, |i: int| if i < init.len() { init[i] } else { 0u8 })
}

/// Sum of two polynomials with equally many coefficients.
pub open spec fn poly_add(a: Seq<u8>, b: Seq<u8>) -> Seq<u8> {
    Seq::new(a.len(), |i: int| gf_add(a[i], b[i]))
}

/// The polynomial `a` with every coefficient multiplied by `m`.
pub open spec fn poly_scale(a: Seq<u8>, m: u8) -> Seq<u8> {
    Seq::new(a.len(), |i: int| gf_mul(a[i], m))
}

/// The sum a<sub>0</sub>b<sub>k</sub> + a<sub>1</sub>b<sub>k-1</sub> + ··· +
/// a<sub>m-1</sub>b<sub>k-m+1</sub>.
pub open spec fn convolution(a: Seq<u8>, b: Seq<u8>, k: int, m: nat) -> u8
    decreases m,
{
    if m == 0 {
        0
    } else {
        gf_add(convolution(a, b, k, (m - 1) as nat), gf_mul(a[m - 1], b[k - (m - 1)]))
    }
}

/// The coefficients of the product ab up to the length of `a`.
pub open spec fn poly_mul(a: Seq<u8>, b: Seq<u8>) -> Seq<u8> {
    Seq::new(a.len(), |k: int| convolution(a, b, k, (k + 1) as nat))
}

/// Whether the product ab has no term beyond the length of `a` and `b`: wherever two
/// coefficients would multiply into such a term, one of them is zero.
pub open spec fn poly_product_fits(a: Seq<u8>, b: Seq<u8>) -> bool {
    forall|i: int, j: int|
        0 <= i < a.len() && 0 <= j < b.len() && i + j >= a.len() ==> #[trigger] a[i] == 0
            || #[trigger] b[j] == 0
}

/// The polynomial `a` divided by x, its constant term dropped.
pub open spec fn poly_shift(a: Seq<u8>) -> Seq<u8> {
    Seq::new(a.len(), |i: int| if i + 1 < a.len() { a[i + 1] } else { 0u8 })
}

/// The polynomial `a` without its terms of degree above `deg`.
pub open spec fn poly_truncate(a: Seq<u8>, deg: nat) -> Seq<u8> {
    Seq::new(a.len(), |i: int| if i <= deg { a[i] } else { 0u8 })
}

/// Formal derivative of the polynomial `a`. In characteristic 2 the term
/// a<sub>i</sub>x<sup>i</sup> becomes a<sub>i</sub>x<sup>i-1</sup> for odd i and vanishes
/// for even i.
pub open spec fn poly_deriv(a: Seq<u8>) -> Seq<u8> {
    Seq::new(a.len(), |i: int| if i % 2 == 0 && i + 1 < a.len() { a[i + 1] } else { 0u8 })
}

/// The zero polynomial is zero everywhere.
pub proof fn lemma_eval_zero(len: nat, x: u8)
    ensures
        poly_eval(poly_zero(len), x) == 0,
    decreases len,
{
    if len > 0 {
        assert(poly_zero(len).skip(1) =~= poly_zero((len - 1) as nat));
        lemma_eval_zero((len - 1) as nat, x);
        lemma_add_zero(0);
    }
}

/// The constant polynomial 1 is 1 everywhere.
pub proof fn lemma_eval_one(len: nat, x: u8)
    requires
        0 < len,
    ensures
        poly_eval(poly_unit_power(len, 0), x) == 1,
{
    assert(poly_unit_power(len, 0).skip(1) =~= poly_zero((len - 1) as nat));
    lemma_eval_zero((len - 1) as nat, x);
    lemma_add_zero(1);
}

/// The constant polynomial 1 has degree 0.
pub proof fn lemma_degree_one(len: nat)
    requires
        0 < len,
    ensures
        poly_degree(poly_unit_power(len, 0)) == Some(0nat),
    decreases len,
{
    if len > 1 {
        assert(poly_unit_power(len, 0).drop_last() =~= poly_unit_power((len - 1) as nat, 0));
        lemma_degree_one((len - 1) as nat);
    }
}

/// Storage for the coefficients of the polynomials of one code, together with the code's
/// minimum distance.
pub trait PolynomialCoefs: Sized + Copy {
    /// The minimum distance d of the code.
    spec fn spec_distance() -> nat;

    /// The number of coefficients that the storage holds.
    spec fn spec_capacity() -> nat;

    /// The bit patterns of the stored coefficients, the constant term first.
    spec fn view(&self) -> Seq<u8>;

    /// The distance is odd, so that d = 2t + 1, and the storage holds the product of an
    /// error locator and a syndrome polynomial, which has up to 4t coefficients. No code
    /// over this field is longer than 63 symbols.
    proof fn lemma_geometry()
        ensures
            Self::spec_distance() % 2 == 1,
            3 <= Self::spec_distance(),
            2 * (Self::spec_distance() - 1) <= Self::spec_capacity() <= 63,
    ;

    /// Every storage holds `spec_capacity()` coefficients.
    proof fn lemma_view(&self)
        ensures
            self@.len() == Self::spec_capacity(),
    ;

    /// Storages that hold the same coefficients are equal.
    proof fn lemma_view_injective(a: Self, b: Self)
        requires
            a@ == b@,
        ensures
            a == b,
    ;

    /// The minimum distance d of the code.
    fn distance() -> (d: usize)
        ensures
            d == Self::spec_distance(),
    ;

    /// The number of coefficients that the storage holds.
    fn capacity() -> (n: usize)
        ensures
            n == Self::spec_capacity(),
    ;

    /// Storage with every coefficient zero.
    fn zeroed() -> (z: Self)
        ensures
            z@ == poly_zero(Self::spec_capacity()),
    ;

    /// The coefficient at the given index.
    fn get(&self, i: usize) -> (c: P25Codeword)
        requires
            i < Self::spec_capacity(),
        ensures
            c@ == self@[i as int],
    ;

    /// Store the coefficient at the given index.
    fn put(&mut self, i: usize, c: P25Codeword)
        requires
            i < Self::spec_capacity(),
        ensures
            final(self)@ == old(self)@.update(i as int, c@),
    ;
}

/// Check at run time what `lemma_geometry` states of the distance and the capacity of the
/// storage `P`. The result is always `true`.
pub fn validate<P: PolynomialCoefs>() -> (ok: bool)
    ensures
        ok,
{
    proof {
        P::lemma_geometry();
    }
    let d: usize = P::distance();
    let n: usize = P::capacity();
    d % 2 == 1 && d >= 3 && 2 * (d - 1) <= n && n <= 63
}

/// Number of symbol errors t that a code with storage `P` corrects.
pub open spec fn spec_errors<P: PolynomialCoefs>() -> nat {
    P::spec_distance() / 2
}

/// Number of syndromes 2t of a code with storage `P`.
pub open spec fn spec_syndromes<P: PolynomialCoefs>() -> nat {
    2 * spec_errors::<P>()
}

/// The number of syndromes is even and at least two, and twice as many coefficients fit
/// in the storage.
pub proof fn lemma_syndrome_count<P: PolynomialCoefs>()
    ensures
        2 <= spec_syndromes::<P>(),
        spec_syndromes::<P>() + 1 == P::spec_distance(),
        2 * spec_syndromes::<P>() <= P::spec_capacity() <= 63,
{
    P::lemma_geometry();
}

/// Number of symbol errors t that a code with storage `P` corrects.
pub fn errors<P: PolynomialCoefs>() -> (t: usize)
    ensures
        t == spec_errors::<P>(),
{
    // Since d is odd, d = 2t + 1 and t is d / 2 rounded down.
    P::distance() / 2
}

/// Number of syndromes 2t of a code with storage `P`.
pub fn syndrome_count<P: PolynomialCoefs>() -> (n: usize)
    ensures
        n == spec_syndromes::<P>(),
        2 <= n,
        2 * n <= P::spec_capacity(),
        n + 1 == P::spec_distance(),
{
    proof {
        P::lemma_geometry();
    }
    2 * errors::<P>()
}

/// A polynomial over the field, with the coefficient storage of one code.
#[derive(Copy)]
pub struct Polynomial<P: PolynomialCoefs> {
    /// Coefficients of the polynomial, the constant term first.
    coefs: P,
}

impl<P: PolynomialCoefs> Clone for Polynomial<P> {
    fn clone(&self) -> (p: Self)
        ensures
            p == *self,
    {
        *self
    }
}

impl<P: PolynomialCoefs> Polynomial<P> {
    /// The bit patterns of the coefficients, the constant term first.
    pub closed spec fn view(&self) -> Seq<u8> {
        self.coefs@
    }

    /// The polynomial with the given coefficients, if there is one.
    pub closed spec fn with_view(c: Seq<u8>) -> Self {
        choose|p: Self| p@ == c
    }

    /// A polynomial has as many coefficients as its storage holds.
    pub proof fn lemma_view(&self)
        ensures
            self@.len() == P::spec_capacity(),
    {
        self.coefs.lemma_view();
    }

    /// Polynomials with the same coefficients are equal.
    pub proof fn lemma_view_injective(a: Self, b: Self)
        requires
            a@ == b@,
        ensures
            a == b,
    {
        P::lemma_view_injective(a.coefs, b.coefs);
    }

    /// The zero polynomial.
    pub fn zero() -> (p: Self)
        ensures
            p@ == poly_zero(P::spec_capacity()),
    {
        Polynomial { coefs: P::zeroed() }
    }

    /// The polynomial with the given coefficients, the constant term first. Coefficients
    /// beyond the capacity are dropped, and missing ones are zero.
    pub fn new(init: &[P25Codeword]) -> (p: Self)
        ensures
            p@ == poly_from(P::spec_capacity(), codeword_values(init@)),
    {
        let n: usize = P::capacity();
        let mut coefs = P::zeroed();
        let mut i: usize = 0;
        while i < n && i < init.len()
            invariant
                n == P::spec_capacity(),
                coefs@.len() == n,
                forall|j: int| 0 <= j < i ==> coefs@[j] == (#[trigger] init@[j])@,
                forall|j: int| i <= j < n ==> #[trigger] coefs@[j] == 0,
                i <= n,
                i <= init@.len(),
            decreases n - i,
        {
            coefs.put(i, init[i]);
            i = i + 1;
        }
        let p = Polynomial { coefs };
        assert(p@ =~= poly_from(P::spec_capacity(), codeword_values(init@)));
        p
    }

    /// The polynomial x<sup>n</sup>, or zero if that is beyond the capacity.
    pub fn unit_power(n: usize) -> (p: Self)
        ensures
            p@ == poly_unit_power(P::spec_capacity(), n as nat),
    {
        let mut coefs = P::zeroed();
        if n < P::capacity() {
            proof {
                lemma_antilog_step(0);
            }
            coefs.put(n, P25Codeword::for_power(0));
        }
        let p = Polynomial { coefs };
        assert(p@ =~= poly_unit_power(P::spec_capacity(), n as nat));
        p
    }

    /// The constant term.
    pub fn constant(&self) -> (c: P25Codeword)
        ensures
            c@ == self@[0],
    {
        proof {
            P::lemma_geometry();
        }
        self.coefs.get(0)
    }

    /// The coefficient of x<sup>deg</sup>, which is zero beyond the capacity.
    pub fn coef(&self, deg: usize) -> (c: P25Codeword)
        ensures
            c@ == (if deg < P::spec_capacity() { self@[deg as int] } else { 0u8 }),
    {
        if deg < P::capacity() {
            self.coefs.get(deg)
        } else {
            P25Codeword::default()
        }
    }

    /// The coefficient at the given index, or `None` if the index is beyond the capacity.
    pub fn get_coefficient(&self, index: usize) -> (c: Option<P25Codeword>)
        ensures
            index < P::spec_capacity() ==> (c matches Some(v) && v@ == self@[index as int]),
            index >= P::spec_capacity() ==> c is None,
    {
        if index < P::capacity() {
            Some(self.coefs.get(index))
        } else {
            None
        }
    }

    /// Replace the coefficient at the given index. Returns whether the index is within the
    /// capacity; if it is not, the polynomial is left as it was.
    pub fn set_coefficient(&mut self, index: usize, value: P25Codeword) -> (stored: bool)
        ensures
            stored == (index < P::spec_capacity()),
            stored ==> final(self)@ == old(self)@.update(index as int, value@),
            !stored ==> final(self)@ == old(self)@,
    {
        if index < P::capacity() {
            self.coefs.put(index, value);
            true
        } else {
            false
        }
    }

    /// The degree of the polynomial, or `None` if it is zero.
    pub fn degree(&self) -> (d: Option<usize>)
        ensures
            d matches Some(n) ==> poly_degree(self@) == Some(n as nat),
            d is None ==> poly_degree(self@) is None,
    {
        proof {
            self.lemma_view();
        }
        let mut i: usize = P::capacity();
        assert(self@.take(i as int) =~= self@);
        while i > 0
            invariant
                i <= P::spec_capacity(),
                self@.len() == P::spec_capacity(),
                poly_degree(self@) == poly_degree(self@.take(i as int)),
            decreases i,
        {
            proof {
                let s = self@.take(i as int);
                assert(s.last() == self@[i - 1]);
                assert(s.drop_last() =~= self@.take(i - 1));
            }
            if !self.coefs.get(i - 1).zero() {
                return Some(i - 1);
            }
            i = i - 1;
        }
        None
    }

    /// Evaluate the polynomial at the given field element, by Horner's method.
    pub fn eval(&self, x: P25Codeword) -> (y: P25Codeword)
        ensures
            y@ == poly_eval(self@, x@),
    {
        proof {
            self.lemma_view();
        }
        let mut acc = P25Codeword::default();
        let mut i: usize = P::capacity();
        assert(self@.skip(i as int).len() == 0);
        while i > 0
            invariant
                i <= P::spec_capacity(),
                self@.len() == P::spec_capacity(),
                acc@ == poly_eval(self@.skip(i as int), x@),
            decreases i,
        {
            proof {
                let s = self@.skip(i - 1);
                assert(s[0] == self@[i - 1]);
                assert(s.skip(1) =~= self@.skip(i as int));
            }
            acc = acc * x + self.coefs.get(i - 1);
            i = i - 1;
        }
        assert(self@.skip(0) =~= self@);
        acc
    }

    /// Divide the polynomial by x, dropping its constant term.
    pub fn shift(self) -> (p: Self)
        ensures
            p@ == poly_shift(self@),
    {
        proof {
            self.lemma_view();
            P::lemma_geometry();
        }
        let n: usize = P::capacity();
        let mut p = self;
        let mut i: usize = 0;
        while i + 1 < n
            invariant
                n == P::spec_capacity(),
                1 <= n,
                i + 1 <= n,
                p@.len() == n,
                self@.len() == n,
                forall|j: int| 0 <= j < i ==> p@[j] == #[trigger] self@[j + 1],
                forall|j: int| i <= j < n ==> p@[j] == #[trigger] self@[j],
            decreases n - i,
        {
            let c = self.coefs.get(i + 1);
            p.coefs.put(i, c);
            i = i + 1;
        }
        p.coefs.put(n - 1, P25Codeword::default());
        assert(p@ =~= poly_shift(self@));
        p
    }

    /// Drop the terms of degree above `deg`.
    pub fn truncate(self, deg: usize) -> (p: Self)
        ensures
            p@ == poly_truncate(self@, deg as nat),
    {
        proof {
            self.lemma_view();
        }
        let n: usize = P::capacity();
        let mut p = self;
        let mut i: usize = n;
        while i > 0 && i - 1 > deg
            invariant
                n == P::spec_capacity(),
                i <= n,
                i == n || i > deg,
                p@.len() == n,
                self@.len() == n,
                forall|j: int| 0 <= j < i ==> p@[j] == #[trigger] self@[j],
                forall|j: int| i <= j < n ==> #[trigger] p@[j] == 0,
            decreases i,
        {
            p.coefs.put(i - 1, P25Codeword::default());
            i = i - 1;
        }
        assert(p@ =~= poly_truncate(self@, deg as nat));
        p
    }

    /// The formal derivative of the polynomial.
    pub fn deriv(self) -> (p: Self)
        ensures
            p@ == poly_deriv(self@),
    {
        proof {
            self.lemma_view();
        }
        let n: usize = P::capacity();
        let mut p = self;
        let mut i: usize = 0;
        while i < n
            invariant
                n == P::spec_capacity(),
                i <= n,
                p@.len() == n,
                self@.len() == n,
                forall|j: int| 0 <= j < i ==> #[trigger] p@[j] == poly_deriv(self@)[j],
            decreases n - i,
        {
            let c = if i % 2 == 0 && i + 1 < n {
                self.coefs.get(i + 1)
            } else {
                P25Codeword::default()
            };
            p.coefs.put(i, c);
            i = i + 1;
        }
        assert(p@ =~= poly_deriv(self@));
        p
    }
}

impl<P: PolynomialCoefs> core::ops::Add for Polynomial<P> {
    type Output = Polynomial<P>;

    /// Add the polynomials coefficient by coefficient.
    fn add(self, rhs: Polynomial<P>) -> (p: Polynomial<P>)
        ensures
            p@ == poly_add(self@, rhs@),
    {
        proof {
            self.lemma_view();
            rhs.lemma_view();
        }
        let n: usize = P::capacity();
        let mut p = self;
        let mut i: usize = 0;
        while i < n
            invariant
                n == P::spec_capacity(),
                i <= n,
                p@.len() == n,
                self@.len() == n,
                rhs@.len() == n,
                forall|j: int| 0 <= j < i ==> #[trigger] p@[j] == gf_add(self@[j], rhs@[j]),
            decreases n - i,
        {
            p.coefs.put(i, self.coefs.get(i) + rhs.coefs.get(i));
            i = i + 1;
        }
        proof {
            assert(p@ =~= poly_add(self@, rhs@));
            Self::lemma_view_injective(p, Self::with_view(poly_add(self@, rhs@)));
        }
        p
    }
}

impl<P: PolynomialCoefs> vstd::std_specs::ops::AddSpecImpl for Polynomial<P> {
    open spec fn obeys_add_spec() -> bool {
        true
    }

    open spec fn add_req(self, rhs: Polynomial<P>) -> bool {
        true
    }

    closed spec fn add_spec(self, rhs: Polynomial<P>) -> Polynomial<P> {
        Self::with_view(poly_add(self@, rhs@))
    }
}

impl<P: PolynomialCoefs> core::ops::Mul<P25Codeword> for Polynomial<P> {
    type Output = Polynomial<P>;

    /// Multiply every coefficient by the given field element.
    fn mul(self, rhs: P25Codeword) -> (p: Polynomial<P>)
        ensures
            p@ == poly_scale(self@, rhs@),
    {
        proof {
            self.lemma_view();
        }
        let n: usize = P::capacity();
        let mut p = self;
        let mut i: usize = 0;
        while i < n
            invariant
                n == P::spec_capacity(),
                i <= n,
                p@.len() == n,
                self@.len() == n,
                forall|j: int| 0 <= j < i ==> #[trigger] p@[j] == gf_mul(self@[j], rhs@),
            decreases n - i,
        {
            p.coefs.put(i, self.coefs.get(i) * rhs);
            i = i + 1;
        }
        proof {
            assert(p@ =~= poly_scale(self@, rhs@));
            Self::lemma_view_injective(p, Self::with_view(poly_scale(self@, rhs@)));
        }
        p
    }
}

impl<P: PolynomialCoefs> vstd::std_specs::ops::MulSpecImpl<P25Codeword> for Polynomial<P> {
    open spec fn obeys_mul_spec() -> bool {
        true
    }

    open spec fn mul_req(self, rhs: P25Codeword) -> bool {
        true
    }

    closed spec fn mul_spec(self, rhs: P25Codeword) -> Polynomial<P> {
        Self::with_view(poly_scale(self@, rhs@))
    }
}

impl<P: PolynomialCoefs> core::ops::Mul<Polynomial<P>> for Polynomial<P> {
    type Output = Polynomial<P>;

    /// Multiply the polynomials. The product must fit: see `poly_product_fits`.
    fn mul(self, rhs: Polynomial<P>) -> (p: Polynomial<P>)
        ensures
            p@ == poly_mul(self@, rhs@),
    {
        proof {
            self.lemma_view();
            rhs.lemma_view();
        }
        let n: usize = P::capacity();
        let mut p = Polynomial::<P>::zero();
        let mut k: usize = 0;
        while k < n
            invariant
                n == P::spec_capacity(),
                k <= n,
                p@.len() == n,
                self@.len() == n,
                rhs@.len() == n,
                forall|j: int| 0 <= j < k ==> #[trigger] p@[j] == poly_mul(self@, rhs@)[j],
            decreases n - k,
        {
            let mut acc = P25Codeword::default();
            let mut i: usize = 0;
            while i <= k
                invariant
                    n == P::spec_capacity(),
                    k < n,
                    i <= k + 1,
                    self@.len() == n,
                    rhs@.len() == n,
                    acc@ == convolution(self@, rhs@, k as int, i as nat),
                decreases k + 1 - i,
            {
                acc = acc + self.coefs.get(i) * rhs.coefs.get(k - i);
                i = i + 1;
            }
            p.coefs.put(k, acc);
            k = k + 1;
        }
        proof {
            assert(p@ =~= poly_mul(self@, rhs@));
            Self::lemma_view_injective(p, Self::with_view(poly_mul(self@, rhs@)));
        }
        p
    }
}

impl<P: PolynomialCoefs> vstd::std_specs::ops::MulSpecImpl<Polynomial<P>> for Polynomial<P> {
    open spec fn obeys_mul_spec() -> bool {
        true
    }

    open spec fn mul_req(self, rhs: Polynomial<P>) -> bool {
        poly_product_fits(self@, rhs@)
    }

    closed spec fn mul_spec(self, rhs: Polynomial<P>) -> Polynomial<P> {
        Self::with_view(poly_mul(self@, rhs@))
    }
}

} // verus!
