//! Encoding and decoding of the (24, 12, 13) short, (24, 16, 9) medium, and (36, 20, 17)
//! long Reed-Solomon codes described by P25.
//!
//! A word of a code is a run of hexbits in transmission order: first the data symbols, then
//! the parity symbols. As a polynomial, the first symbol of the word is the coefficient of
//! the highest-degree term.

use vstd::prelude::*;
use collect_slice::CollectSlice;
use crate::bits::{hexbit_values, Hexbit};
use crate::coding::bmcf::{error_list, lemma_no_errors, Errors};
use crate::coding::galois::{antilog, codeword_values, gf_add, gf_mul, P25Codeword};
use crate::coding::polynomial::{
    lemma_syndrome_count, poly_eval, poly_zero, spec_syndromes, syndrome_count, validate,
    Polynomial, PolynomialCoefs,
};

pub mod long;
pub mod medium;
pub mod short;
pub mod systematic;

verus! {

/// The sequence `s` back to front.
pub open spec fn reversed(s: Seq<u8>) -> Seq<u8> {
    Seq::new(s.len(), |i: int| s[s.len() - 1 - i])
}

/// The rows of a matrix with `K` columns, each as a sequence.
pub open spec fn generator_rows<const K: usize>(gen: Seq<[u8; K]>) -> Seq<Seq<u8>> {
    Seq::new(gen.len(), |p: int| gen[p]@)
}

/// The sum of the first `m` products of a data symbol with its weight in the given row of a
/// generator matrix.
pub open spec fn weighted_sum(row: Seq<u8>, data: Seq<u8>, m: nat) -> u8
    decreases m,
{
    if m == 0 {
        0
    } else {
        gf_add(weighted_sum(row, data, (m - 1) as nat), gf_mul(data[m - 1], row[m - 1]))
    }
}

/// The parity symbols for the given data symbols: one for each row of the generator matrix,
/// the sum of the data symbols weighted by the row.
pub open spec fn parity_symbols(data: Seq<u8>, gen: Seq<Seq<u8>>) -> Seq<u8> {
    Seq::new(gen.len(), |p: int| weighted_sum(gen[p], data, data.len()))
}

/// The codeword for the given data symbols: the data symbols as they are, followed by
/// their parity symbols.
pub open spec fn codeword(data: Seq<u8>, gen: Seq<Seq<u8>>) -> Seq<u8> {
    data + parity_symbols(data, gen)
}

/// The syndrome polynomial s(x) = s<sub>1</sub> + s<sub>2</sub>x + ··· +
/// s<sub>2t</sub>x<sup>2t-1</sup> of the received word r(x), where s<sub>i</sub> =
/// r(α<sup>i</sup>) and 2t = `t2`.
pub open spec fn syndrome_poly(word: Seq<u8>, t2: nat) -> Seq<u8> {
    Seq::new(word.len(), |i: int| if i < t2 { poly_eval(word, antilog(i + 1)) } else { 0u8 })
}

/// The polynomial `poly` with the pattern of each of the first `m` errors added to the
/// coefficient at its location, or `None` if one of them is located outside the polynomial.
pub open spec fn apply_errors(poly: Seq<u8>, errs: Seq<(nat, u8)>, m: nat) -> Option<Seq<u8>>
    decreases m,
{
    if m == 0 {
        Some(poly)
    } else {
        match apply_errors(poly, errs, (m - 1) as nat) {
            Some(fixed) => {
                let (loc, pat) = errs[m - 1];
                if loc < fixed.len() {
                    Some(fixed.update(loc as int, gf_add(fixed[loc as int], pat)))
                } else {
                    None
                }
            },
            None => None,
        }
    }
}

/// The received word r(x) with its errors corrected, and the number of errors, for a code
/// with `t2` syndromes, or `None` if the word is unrecoverable: it has no error list, or
/// an error is located outside the word.
pub open spec fn corrected_word(word: Seq<u8>, t2: nat) -> Option<(Seq<u8>, nat)> {
    match error_list(syndrome_poly(word, t2), t2) {
        Some(errs) => match apply_errors(word, errs, errs.len()) {
            Some(fixed) => Some((fixed, errs.len())),
            None => None,
        },
        None => None,
    }
}

/// The first `k` symbols of the received word `word`, given in transmission order, with
/// their errors corrected, and the number of errors in the whole word, for a code with `t2`
/// syndromes, or `None` if the word is unrecoverable.
pub open spec fn decoded_data(word: Seq<u8>, t2: nat, k: nat) -> Option<(Seq<u8>, nat)> {
    match corrected_word(reversed(word), t2) {
        Some((fixed, nerr)) => Some((reversed(fixed).take(k as int), nerr)),
        None => None,
    }
}

/// A word whose syndromes are all zero is a codeword, and is corrected to itself with no
/// error counted.
pub proof fn lemma_corrected_codeword(word: Seq<u8>, t2: nat)
    requires
        t2 < word.len(),
        syndrome_poly(word, t2) == poly_zero(word.len()),
    ensures
        corrected_word(word, t2) == Some((word, 0nat)),
{
    lemma_no_errors(word.len(), t2);
}

/// Decoding a codeword, given in transmission order, takes its first `k` symbols and counts
/// no error.
pub proof fn lemma_decoded_codeword(word: Seq<u8>, t2: nat, k: nat)
    requires
        t2 < word.len(),
        syndrome_poly(reversed(word), t2) == poly_zero(word.len()),
    ensures
        decoded_data(word, t2, k) == Some((word.take(k as int), 0nat)),
{
    lemma_corrected_codeword(reversed(word), t2);
    assert(reversed(reversed(word)) =~= word);
}

/// Write the given symbols to the given slice, which must have room for exactly as many.
///
/// This is `collect_slice_checked` of the `collect_slice` crate, on the iterator over the
/// symbols. It stores one item per slot from the start of the slice, and panics unless the
/// items and the slots run out together.
#[verifier::external_body]
fn collect_slice_checked(symbols: Vec<Hexbit>, slice: &mut [Hexbit])
    requires
        symbols@.len() == old(slice)@.len(),
    ensures
        final(slice)@ == symbols@,
{
    symbols.into_iter().collect_slice_checked(slice)
}

/// Write the first of the given symbols to the given slice until it is full. There must be
/// at least as many symbols as the slice has room for.
///
/// This is `collect_slice_fill` of the `collect_slice` crate, on the iterator over the
/// symbols. It stores one item per slot from the start of the slice, leaves further items
/// alone, and panics if the items run out before the slots.
#[verifier::external_body]
fn collect_slice_fill(symbols: Vec<Hexbit>, slice: &mut [Hexbit])
    requires
        symbols@.len() >= old(slice)@.len(),
    ensures
        final(slice)@ == symbols@.take(old(slice)@.len() as int),
{
    symbols.into_iter().collect_slice_fill(slice)
}

/// Encode the given data with the given generator matrix and place the resulting parity
/// symbols in the given destination.
pub fn encode<const K: usize>(data: &[Hexbit], parity: &mut [Hexbit], gen: &[[u8; K]])
    requires
        data@.len() == K,
        old(parity)@.len() == gen@.len(),
        forall|p: int, j: int| 0 <= p < gen@.len() && 0 <= j < K ==> #[trigger] gen@[p][j] < 64,
    ensures
        hexbit_values(final(parity)@) == parity_symbols(
            hexbit_values(data@),
            generator_rows(gen@),
        ),
{
    let ghost values = hexbit_values(data@);
    let ghost rows = generator_rows(gen@);
    let mut symbols: Vec<Hexbit> = Vec::new();
    let mut p: usize = 0;
    while p < gen.len()
        invariant
            p <= gen@.len(),
            data@.len() == K,
            values == hexbit_values(data@),
            rows == generator_rows(gen@),
            forall|p: int, j: int|
                0 <= p < gen@.len() && 0 <= j < K ==> #[trigger] gen@[p][j] < 64,
            symbols@.len() == p,
            forall|q: int|
                0 <= q < p ==> (#[trigger] symbols@[q])@ == weighted_sum(rows[q], values, K as nat),
        decreases gen@.len() - p,
    {
        let row = &gen[p];
        let mut sum = P25Codeword::default();
        let mut j: usize = 0;
        while j < K
            invariant
                j <= K,
                p < gen@.len(),
                data@.len() == K,
                values == hexbit_values(data@),
                rows == generator_rows(gen@),
                *row == gen@[p as int],
                forall|j: int| 0 <= j < K ==> row[j] < 64,
                sum@ == weighted_sum(rows[p as int], values, j as nat),
            decreases K - j,
        {
            sum = sum + P25Codeword::new(data[j].bits()) * P25Codeword::new(row[j]);
            j = j + 1;
        }
        symbols.push(Hexbit::new(sum.bits()));
        p = p + 1;
    }
    collect_slice_checked(symbols, parity);
    assert(hexbit_values(parity@) =~= parity_symbols(values, rows));
}

/// Generate the syndrome polynomial s(x) from the given received word r(x).
///
/// The resulting polynomial has the form s(x) = s<sub>1</sub> + s<sub>2</sub>x + ··· +
/// s<sub>2t</sub>x<sup>2t-1</sup>, where s<sub>i</sub> = r(α<sup>i</sup>).
pub fn syndromes<P: PolynomialCoefs>(word: &Polynomial<P>) -> (syn: Polynomial<P>)
    ensures
        syn@ == syndrome_poly(word@, spec_syndromes::<P>()),
{
    let t2: usize = syndrome_count::<P>();
    proof {
        word.lemma_view();
        lemma_syndrome_count::<P>();
    }
    let mut evals: Vec<P25Codeword> = Vec::new();
    let mut p: usize = 1;
    while p <= t2
        invariant
            1 <= p <= t2 + 1,
            t2 <= 63,
            evals@.len() == p - 1,
            forall|i: int|
                0 <= i < p - 1 ==> (#[trigger] evals@[i])@ == poly_eval(word@, antilog(i + 1)),
        decreases t2 + 1 - p,
    {
        // Compute r(α^p).
        evals.push(word.eval(P25Codeword::for_power(p)));
        p = p + 1;
    }
    let syn = Polynomial::new(evals.as_slice());
    assert(syn@ =~= syndrome_poly(word@, spec_syndromes::<P>()));
    syn
}

/// Try to fix any errors in the given word.
///
/// On success, return `Some((poly, err))`, where `poly` is the polynomial representation
/// of the corrected word (with the last data symbol as the degree-0 coefficient) and
/// `err` is the number of corrected hexbit symbols. Otherwise, return `None` to indicate
/// an unrecoverable error.
pub fn decode<P: PolynomialCoefs>(word: &[Hexbit]) -> (r: Option<(Polynomial<P>, usize)>)
    requires
        word@.len() == P::spec_capacity(),
    ensures
        match r {
            Some((poly, err)) => corrected_word(
                reversed(hexbit_values(word@)),
                spec_syndromes::<P>(),
            ) == Some((poly@, err as nat)),
            None => corrected_word(reversed(hexbit_values(word@)), spec_syndromes::<P>()) is None,
        },
{
    let ghost t2 = spec_syndromes::<P>();
    let ghost received = reversed(hexbit_values(word@));
    // In the polynomial representation, the first received symbol corresponds to the
    // coefficient of the highest-degree term.
    let n: usize = word.len();
    let mut coefs: Vec<P25Codeword> = Vec::new();
    let mut i: usize = 0;
    while i < n
        invariant
            i <= n,
            n == word@.len(),
            coefs@.len() == i,
            forall|j: int| 0 <= j < i ==> (#[trigger] coefs@[j])@ == word@[n - 1 - j]@,
        decreases n - i,
    {
        coefs.push(P25Codeword::new(word[n - 1 - i].bits()));
        i = i + 1;
    }
    let mut poly = Polynomial::<P>::new(coefs.as_slice());
    proof {
        poly.lemma_view();
        assert(poly@ =~= received);
    }
    let syn = syndromes(&poly);
    proof {
        lemma_syndrome_count::<P>();
    }
    match Errors::new(syn) {
        Some((nerr, errs)) => {
            let mut m: usize = 0;
            while m < nerr
                invariant
                    m <= nerr,
                    nerr == errs@.len(),
                    poly@.len() == P::spec_capacity(),
                    t2 == spec_syndromes::<P>(),
                    received == reversed(hexbit_values(word@)),
                    error_list(syndrome_poly(received, t2), t2) == Some(errs@),
                    apply_errors(received, errs@, m as nat) == Some(poly@),
                decreases nerr - m,
            {
                let (loc, pat) = errs.get(m);
                match poly.get_coefficient(loc) {
                    Some(coef) => {
                        poly.set_coefficient(loc, coef + pat);
                    },
                    None => {
                        proof {
                            lemma_apply_errors_none(received, errs@, (m + 1) as nat, nerr as nat);
                        }
                        return None;
                    },
                }
                m = m + 1;
            }
            Some((poly, nerr))
        },
        None => None,
    }
}

/// Once an error is located outside the polynomial, no longer run of errors can be
/// applied.
proof fn lemma_apply_errors_none(poly: Seq<u8>, errs: Seq<(nat, u8)>, m: nat, n: nat)
    requires
        m <= n,
        apply_errors(poly, errs, m) is None,
    ensures
        apply_errors(poly, errs, n) is None,
    decreases n - m,
{
    if m < n {
        lemma_apply_errors_none(poly, errs, m, (n - 1) as nat);
    }
}

/// Extract the data symbols from the given polynomial-form word and write them to the
/// given slice: the coefficient of the highest-degree term first, until the slice is full.
pub fn extract_data<'a, P: PolynomialCoefs>(poly: Polynomial<P>, data: &'a mut [Hexbit]) -> (r:
    &'a [Hexbit])
    requires
        old(data)@.len() <= P::spec_capacity(),
    ensures
        hexbit_values(final(data)@) == reversed(poly@).take(old(data)@.len() as int),
        r@ == final(data)@,
{
    proof {
        poly.lemma_view();
    }
    let n: usize = P::capacity();
    let mut symbols: Vec<Hexbit> = Vec::new();
    let mut i: usize = 0;
    while i < n
        invariant
            i <= n,
            n == P::spec_capacity(),
            poly@.len() == n,
            symbols@.len() == i,
            forall|j: int| 0 <= j < i ==> (#[trigger] symbols@[j])@ == poly@[n - 1 - j],
        decreases n - i,
    {
        symbols.push(Hexbit::new(poly.coef(n - 1 - i).bits()));
        i = i + 1;
    }
    collect_slice_fill(symbols, data);
    assert(hexbit_values(data@) =~= reversed(poly@).take(old(data)@.len() as int));
    data
}

/// Storage for the polynomials of the (24, 12, 13) short code.
#[derive(Clone, Copy)]
pub struct ShortCoefs([P25Codeword; 24]);

impl PolynomialCoefs for ShortCoefs {
    open spec fn spec_distance() -> nat {
        13
    }

    open spec fn spec_capacity() -> nat {
        24
    }

    closed spec fn view(&self) -> Seq<u8> {
        codeword_values(self.0@)
    }

    proof fn lemma_geometry() {
    }

    proof fn lemma_view(&self) {
    }

    proof fn lemma_view_injective(a: Self, b: Self) {
        assert forall|i: int| 0 <= i < 24 implies a.0[i] == b.0[i] by {
            assert(a@[i] == a.0@[i]@ && b@[i] == b.0@[i]@);
            P25Codeword::lemma_view_injective(a.0@[i], b.0@[i]);
        }
        assert(a.0 =~= b.0);
    }

    fn distance() -> (d: usize) {
        13
    }

    fn capacity() -> (n: usize) {
        24
    }

    fn zeroed() -> (z: Self) {
        let z = ShortCoefs([P25Codeword::default(); 24]);
        assert(z@ =~= poly_zero(24));
        z
    }

    fn get(&self, i: usize) -> (c: P25Codeword) {
        self.0[i]
    }

    fn put(&mut self, i: usize, c: P25Codeword) {
        self.0[i] = c;
        assert(self@ =~= old(self)@.update(i as int, c@));
    }
}

impl ShortCoefs {
    /// Check that the distance is odd and that the storage is large enough for decoding.
    /// The result is always `true`.
    pub fn validate(&self) -> (ok: bool)
        ensures
            ok,
    {
        validate::<ShortCoefs>()
    }
}

impl Default for ShortCoefs {
    /// Storage with every coefficient zero.
    fn default() -> (z: Self)
        ensures
            z@ == poly_zero(24),
    {
        Self::zeroed()
    }
}

/// Storage for the polynomials of the (24, 16, 9) medium code.
#[derive(Clone, Copy)]
pub struct MedCoefs([P25Codeword; 24]);

impl PolynomialCoefs for MedCoefs {
    open spec fn spec_distance() -> nat {
        9
    }

    open spec fn spec_capacity() -> nat {
        24
    }

    closed spec fn view(&self) -> Seq<u8> {
        codeword_values(self.0@)
    }

    proof fn lemma_geometry() {
    }

    proof fn lemma_view(&self) {
    }

    proof fn lemma_view_injective(a: Self, b: Self) {
        assert forall|i: int| 0 <= i < 24 implies a.0[i] == b.0[i] by {
            assert(a@[i] == a.0@[i]@ && b@[i] == b.0@[i]@);
            P25Codeword::lemma_view_injective(a.0@[i], b.0@[i]);
        }
        assert(a.0 =~= b.0);
    }

    fn distance() -> (d: usize) {
        9
    }

    fn capacity() -> (n: usize) {
        24
    }

    fn zeroed() -> (z: Self) {
        let z = MedCoefs([P25Codeword::default(); 24]);
        assert(z@ =~= poly_zero(24));
        z
    }

    fn get(&self, i: usize) -> (c: P25Codeword) {
        self.0[i]
    }

    fn put(&mut self, i: usize, c: P25Codeword) {
        self.0[i] = c;
        assert(self@ =~= old(self)@.update(i as int, c@));
    }
}

impl MedCoefs {
    /// Check that the distance is odd and that the storage is large enough for decoding.
    /// The result is always `true`.
    pub fn validate(&self) -> (ok: bool)
        ensures
            ok,
    {
        validate::<MedCoefs>()
    }
}

impl Default for MedCoefs {
    /// Storage with every coefficient zero.
    fn default() -> (z: Self)
        ensures
            z@ == poly_zero(24),
    {
        Self::zeroed()
    }
}

/// Storage for the polynomials of the (36, 20, 17) long code.
#[derive(Clone, Copy)]
pub struct LongCoefs([P25Codeword; 36]);

impl PolynomialCoefs for LongCoefs {
    open spec fn spec_distance() -> nat {
        17
    }

    open spec fn spec_capacity() -> nat {
        36
    }

    closed spec fn view(&self) -> Seq<u8> {
        codeword_values(self.0@)
    }

    proof fn lemma_geometry() {
    }

    proof fn lemma_view(&self) {
    }

    proof fn lemma_view_injective(a: Self, b: Self) {
        assert forall|i: int| 0 <= i < 36 implies a.0[i] == b.0[i] by {
            assert(a@[i] == a.0@[i]@ && b@[i] == b.0@[i]@);
            P25Codeword::lemma_view_injective(a.0@[i], b.0@[i]);
        }
        assert(a.0 =~= b.0);
    }

    fn distance() -> (d: usize) {
        17
    }

    fn capacity() -> (n: usize) {
        36
    }

    fn zeroed() -> (z: Self) {
        let z = LongCoefs([P25Codeword::default(); 36]);
        assert(z@ =~= poly_zero(36));
        z
    }

    fn get(&self, i: usize) -> (c: P25Codeword) {
        self.0[i]
    }

    fn put(&mut self, i: usize, c: P25Codeword) {
        self.0[i] = c;
        assert(self@ =~= old(self)@.update(i as int, c@));
    }
}

impl LongCoefs {
    /// Check that the distance is odd and that the storage is large enough for decoding.
    /// The result is always `true`.
    pub fn validate(&self) -> (ok: bool)
        ensures
            ok,
    {
        validate::<LongCoefs>()
    }
}

impl Default for LongCoefs {
    /// Storage with every coefficient zero.
    fn default() -> (z: Self)
        ensures
            z@ == poly_zero(36),
    {
        Self::zeroed()
    }
}

} // verus!
