//! Why the words that the encoder makes are codewords.
//!
//! A generator matrix belongs to a generator polynomial g(x) if its last column holds
//! x<sup>2t</sup> mod g(x) and each column before it holds x times the next column mod g(x).
//! The word for a single data symbol 1 is then a multiple of g(x), and so is every word the
//! encoder makes, since the encoder is linear. If the roots of g(x) are the first 2t powers
//! of α, every such word has zero syndromes.

use vstd::prelude::*;
use crate::coding::algebra::{
    gf_mul_bits, lemma_add_interchange, lemma_add_laws, lemma_mul_associative, lemma_mul_basics,
    lemma_mul_distributive, lemma_mul_is_bits,
};
use crate::coding::algebra::lemma_mul_powers;
use crate::coding::galois::{antilog, gf_add, gf_mul, lemma_antilog_range, lemma_antilog_step};
use crate::coding::polynomial::{poly_add, poly_eval, poly_scale, poly_shift, poly_zero};
use crate::coding::reed_solomon::{codeword, reversed, syndrome_poly, weighted_sum};

verus! {

/// Whether every symbol of the sequence is a field element.
pub open spec fn in_field(s: Seq<u8>) -> bool {
    forall|i: int| 0 <= i < s.len() ==> #[trigger] s[i] < 64
}

/// Whether every entry of the matrix is a field element, and every row has `k` entries.
pub open spec fn matrix_in_field(gen: Seq<Seq<u8>>, k: nat) -> bool {
    forall|p: int| 0 <= p < gen.len() ==> (#[trigger] gen[p]).len() == k && in_field(gen[p])
}

/// The value at `a` of the polynomial whose coefficients are the first `j` symbols of the
/// word, the coefficient of the highest-degree term first.
pub open spec fn word_eval(word: Seq<u8>, a: u8, j: nat) -> u8
    decreases j,
{
    if j == 0 {
        0
    } else {
        gf_add(gf_mul(word_eval(word, a, (j - 1) as nat), a), word[j - 1])
    }
}

/// Whether the first `t2` powers of α, from α<sup>1</sup>, are roots of the polynomial with
/// the given coefficients, the coefficient of the highest-degree term first.
pub open spec fn has_roots(gen_poly: Seq<u8>, t2: nat) -> bool {
    forall|i: int| 1 <= i <= t2 ==> word_eval(gen_poly, #[trigger] antilog(i), gen_poly.len()) == 0
}

/// Whether the generator matrix `gen` for `k` data symbols belongs to the monic polynomial
/// g(x) with the coefficients `gen_poly`, the coefficient of the highest-degree term
/// first: its last column holds g(x) without its first term, and each other column holds
/// x times the next column, less the multiple of g(x) that cancels the term
/// x<sup>2t</sup>.
pub open spec fn matrix_matches(gen: Seq<Seq<u8>>, gen_poly: Seq<u8>, k: nat) -> bool {
    &&& 0 < k
    &&& 0 < gen.len()
    &&& gen_poly.len() == gen.len() + 1
    &&& gen_poly[0] == 1
    &&& forall|p: int| 0 <= p < gen.len() ==> (#[trigger] gen[p])[k - 1] == gen_poly[p + 1]
    &&& forall|m: int, p: int|
        1 <= m < k && 0 <= p < gen.len() ==> #[trigger] gen[p][m - 1] == gf_add(
            if p + 1 < gen.len() {
                gen[p + 1][m]
            } else {
                0
            },
            gf_mul(gen[0][m], gen_poly[p + 1]),
        )
}

/// Evaluating a word is evaluating its polynomial, whose coefficients are the symbols of
/// the word back to front.
pub proof fn lemma_word_eval(word: Seq<u8>, a: u8, j: nat)
    requires
        j <= word.len(),
    ensures
        poly_eval(reversed(word).skip(word.len() - j), a) == word_eval(word, a, j),
    decreases j,
{
    let tail = reversed(word).skip(word.len() - j);
    if j > 0 {
        lemma_word_eval(word, a, (j - 1) as nat);
        assert(tail.skip(1) =~= reversed(word).skip(word.len() - (j - 1)));
        assert(tail[0] == word[j - 1]);
    }
}

/// The value of a word of field elements at a field element is a field element.
pub proof fn lemma_word_eval_range(word: Seq<u8>, a: u8, j: nat)
    requires
        in_field(word),
        a < 64,
        j <= word.len(),
    ensures
        word_eval(word, a, j) < 64,
    decreases j,
{
    if j > 0 {
        lemma_word_eval_range(word, a, (j - 1) as nat);
        let before = word_eval(word, a, (j - 1) as nat);
        lemma_mul_basics(before, a);
        lemma_add_laws(gf_mul(before, a), word[j - 1], 0);
    }
}

/// Each step of evaluating a word, on the bits.
pub proof fn lemma_word_eval_bits(word: Seq<u8>, a: u8)
    requires
        in_field(word),
        a < 64,
    ensures
        word_eval(word, a, 0) == 0,
        forall|j: nat|
            1 <= j <= word.len() ==> #[trigger] word_eval(word, a, j) == gf_mul_bits(
                a,
                word_eval(word, a, (j - 1) as nat),
            ) ^ word[j - 1],
{
    assert forall|j: nat| 1 <= j <= word.len() implies #[trigger] word_eval(word, a, j)
        == gf_mul_bits(a, word_eval(word, a, (j - 1) as nat)) ^ word[j - 1] by {
        let before = word_eval(word, a, (j - 1) as nat);
        lemma_word_eval_range(word, a, (j - 1) as nat);
        lemma_mul_basics(before, a);
        lemma_mul_is_bits(a, before);
    }
}

/// The value of a word depends on the symbols that are read only.
pub proof fn lemma_word_eval_prefix(c: Seq<u8>, d: Seq<u8>, a: u8, j: nat)
    requires
        j <= c.len(),
        j <= d.len(),
        forall|i: int| 0 <= i < j ==> c[i] == d[i],
    ensures
        word_eval(c, a, j) == word_eval(d, a, j),
    decreases j,
{
    if j > 0 {
        lemma_word_eval_prefix(c, d, a, (j - 1) as nat);
    }
}

/// Zero symbols at the start of a word do not change its value.
pub proof fn lemma_word_eval_zeros(word: Seq<u8>, a: u8, j: nat)
    requires
        j <= word.len(),
        a < 64,
        forall|i: int| 0 <= i < j ==> word[i] == 0,
    ensures
        word_eval(word, a, j) == 0,
    decreases j,
{
    if j > 0 {
        lemma_word_eval_zeros(word, a, (j - 1) as nat);
        lemma_mul_basics(0, a);
        lemma_add_laws(0, 0, 0);
    }
}

/// The value of a sum of words is the sum of their values.
pub proof fn lemma_word_eval_add(c: Seq<u8>, d: Seq<u8>, a: u8, j: nat)
    requires
        c.len() == d.len(),
        in_field(c),
        in_field(d),
        a < 64,
        j <= c.len(),
    ensures
        word_eval(poly_add(c, d), a, j) == gf_add(word_eval(c, a, j), word_eval(d, a, j)),
    decreases j,
{
    if j == 0 {
        lemma_add_laws(0, 0, 0);
    } else {
        lemma_word_eval_add(c, d, a, (j - 1) as nat);
        let ec = word_eval(c, a, (j - 1) as nat);
        let ed = word_eval(d, a, (j - 1) as nat);
        lemma_word_eval_range(c, a, (j - 1) as nat);
        lemma_word_eval_range(d, a, (j - 1) as nat);
        lemma_mul_distributive(a, ec, ed);
        lemma_add_interchange(gf_mul(ec, a), gf_mul(ed, a), c[j - 1], d[j - 1]);
    }
}

/// The value of a multiple of a word is the multiple of its value.
pub proof fn lemma_word_eval_scale(c: Seq<u8>, h: u8, a: u8, j: nat)
    requires
        in_field(c),
        h < 64,
        a < 64,
        j <= c.len(),
    ensures
        word_eval(poly_scale(c, h), a, j) == gf_mul(word_eval(c, a, j), h),
    decreases j,
{
    if j == 0 {
        lemma_mul_basics(0, h);
    } else {
        lemma_word_eval_scale(c, h, a, (j - 1) as nat);
        let e = word_eval(c, a, (j - 1) as nat);
        lemma_word_eval_range(c, a, (j - 1) as nat);
        // (eh)a = (ea)h
        lemma_mul_associative(e, h, a);
        lemma_mul_basics(h, a);
        lemma_mul_associative(e, a, h);
        lemma_mul_basics(e, a);
        lemma_mul_distributive(h, gf_mul(e, a), c[j - 1]);
    }
}

/// Moving every symbol of a word that starts with zero one place to the front multiplies
/// its value by `a`.
pub proof fn lemma_word_eval_shift(c: Seq<u8>, a: u8, j: nat)
    requires
        0 < c.len(),
        c[0] == 0,
        a < 64,
        j < c.len(),
    ensures
        word_eval(poly_shift(c), a, j) == word_eval(c, a, j + 1),
        j + 1 == c.len() ==> word_eval(poly_shift(c), a, j + 1) == gf_mul(
            word_eval(c, a, j + 1),
            a,
        ),
    decreases j,
{
    lemma_mul_basics(0, a);
    lemma_add_laws(0, 0, 0);
    if j > 0 {
        lemma_word_eval_shift(c, a, (j - 1) as nat);
        assert(poly_shift(c)[j - 1] == c[j as int]);
    } else {
        assert(word_eval(c, a, 0) == 0);
    }
    assert(word_eval(poly_shift(c), a, j) == word_eval(c, a, j + 1));
    if j + 1 == c.len() {
        assert(poly_shift(c)[j as int] == 0);
        lemma_add_laws(gf_mul(word_eval(c, a, j + 1), a), 0, 0);
    }
}

/// The word of length `n` for the polynomial with the coefficients `gen_poly`: zeros, then
/// the coefficients.
pub open spec fn generator_word(gen_poly: Seq<u8>, n: nat) -> Seq<u8> {
    Seq::new(
        n,
        |j: int| if j + gen_poly.len() < n { 0u8 } else { gen_poly[j + gen_poly.len() - n] },
    )
}

/// The word that the generator matrix `gen` gives for `k` data symbols that are all zero,
/// but for data symbol `m`, which is 1.
pub open spec fn unit_word(gen: Seq<Seq<u8>>, k: nat, m: int) -> Seq<u8> {
    Seq::new(
        k + gen.len(),
        |j: int| if j < k { if j == m { 1u8 } else { 0u8 } } else { gen[j - k][m] },
    )
}

/// The word for a polynomial has the value of the polynomial.
pub proof fn lemma_generator_word_eval(gen_poly: Seq<u8>, n: nat, a: u8, j: nat)
    requires
        j <= gen_poly.len() <= n,
        a < 64,
    ensures
        word_eval(generator_word(gen_poly, n), a, (n - gen_poly.len() + j) as nat) == word_eval(
            gen_poly,
            a,
            j,
        ),
    decreases j,
{
    let word = generator_word(gen_poly, n);
    if j == 0 {
        lemma_word_eval_zeros(word, a, (n - gen_poly.len()) as nat);
    } else {
        lemma_generator_word_eval(gen_poly, n, a, (j - 1) as nat);
        assert(word[n - gen_poly.len() + j - 1] == gen_poly[j - 1]);
    }
}

/// The word for a single data symbol 1 has the value zero wherever the generator
/// polynomial has.
pub proof fn lemma_unit_word_eval(gen: Seq<Seq<u8>>, gen_poly: Seq<u8>, k: nat, m: int, a: u8)
    requires
        matrix_matches(gen, gen_poly, k),
        matrix_in_field(gen, k),
        in_field(gen_poly),
        a < 64,
        word_eval(gen_poly, a, gen_poly.len()) == 0,
        0 <= m < k,
    ensures
        word_eval(unit_word(gen, k, m), a, k + gen.len()) == 0,
    decreases k - m,
{
    let n = k + gen.len();
    let g = generator_word(gen_poly, n);
    lemma_generator_word_eval(gen_poly, n, a, gen_poly.len());
    if m == k - 1 {
        assert(unit_word(gen, k, m) =~= g) by {
            assert forall|j: int| 0 <= j < n implies unit_word(gen, k, m)[j] == g[j] by {
                if j >= k {
                    assert(gen[j - k][k - 1] == gen_poly[j - k + 1]);
                }
            }
        }
    } else {
        lemma_unit_word_eval(gen, gen_poly, k, m + 1, a);
        let next = unit_word(gen, k, m + 1);
        let h = gen[0][m + 1];
        assert(h < 64) by {
            assert(in_field(gen[0]));
        }
        let shifted = poly_shift(next);
        let multiple = poly_scale(g, h);
        assert(in_field(g));
        assert(in_field(next)) by {
            assert forall|j: int| 0 <= j < n implies #[trigger] next[j] < 64 by {
                if j >= k {
                    assert(in_field(gen[j - k]));
                }
            }
        }
        assert(in_field(shifted));
        assert(in_field(multiple)) by {
            assert forall|j: int| 0 <= j < n implies #[trigger] multiple[j] < 64 by {
                lemma_mul_basics(g[j], h);
            }
        }
        assert(unit_word(gen, k, m) =~= poly_add(shifted, multiple)) by {
            assert forall|j: int| 0 <= j < n implies unit_word(gen, k, m)[j] == poly_add(
                shifted,
                multiple,
            )[j] by {
                lemma_mul_basics(g[j], h);
                lemma_add_laws(shifted[j], h, 0);
                if j >= k {
                    let p = j - k;
                    assert(gen[p][m + 1 - 1] == gf_add(
                        if p + 1 < gen.len() {
                            gen[p + 1][m + 1]
                        } else {
                            0
                        },
                        gf_mul(gen[0][m + 1], gen_poly[p + 1]),
                    ));
                    lemma_mul_basics(h, gen_poly[p + 1]);
                }
            }
        }
        lemma_word_eval_add(shifted, multiple, a, n);
        lemma_word_eval_shift(next, a, (n - 1) as nat);
        lemma_word_eval_scale(g, h, a, n);
        lemma_mul_basics(0, a);
        lemma_mul_basics(0, h);
        lemma_add_laws(0, 0, 0);
    }
}

/// The `k` data symbols that are all zero, but for data symbol `m`, which is `v`.
pub open spec fn single(k: nat, m: int, v: u8) -> Seq<u8> {
    Seq::new(k, |j: int| if j == m { v } else { 0u8 })
}

/// The data symbols before symbol `m`, with zeros for the others.
pub open spec fn upto(data: Seq<u8>, m: nat) -> Seq<u8> {
    Seq::new(data.len(), |j: int| if j < m { data[j] } else { 0u8 })
}

/// A weighted sum of field elements is a field element.
pub proof fn lemma_weighted_sum_range(row: Seq<u8>, data: Seq<u8>, j: nat)
    requires
        in_field(row),
        in_field(data),
        j <= row.len(),
        j <= data.len(),
    ensures
        weighted_sum(row, data, j) < 64,
    decreases j,
{
    if j > 0 {
        lemma_weighted_sum_range(row, data, (j - 1) as nat);
        lemma_mul_basics(data[j - 1], row[j - 1]);
        lemma_add_laws(
            weighted_sum(row, data, (j - 1) as nat),
            gf_mul(data[j - 1], row[j - 1]),
            0,
        );
    }
}

/// The weighted sum of a sum of data symbols is the sum of their weighted sums.
pub proof fn lemma_weighted_sum_add(row: Seq<u8>, d: Seq<u8>, e: Seq<u8>, j: nat)
    requires
        in_field(row),
        in_field(d),
        in_field(e),
        d.len() == e.len(),
        j <= row.len(),
        j <= d.len(),
    ensures
        weighted_sum(row, poly_add(d, e), j) == gf_add(
            weighted_sum(row, d, j),
            weighted_sum(row, e, j),
        ),
    decreases j,
{
    if j == 0 {
        lemma_add_laws(0, 0, 0);
    } else {
        lemma_weighted_sum_add(row, d, e, (j - 1) as nat);
        lemma_mul_distributive(row[j - 1], d[j - 1], e[j - 1]);
        lemma_add_interchange(
            weighted_sum(row, d, (j - 1) as nat),
            weighted_sum(row, e, (j - 1) as nat),
            gf_mul(d[j - 1], row[j - 1]),
            gf_mul(e[j - 1], row[j - 1]),
        );
    }
}

/// The weighted sum of a single data symbol is the symbol times its weight.
pub proof fn lemma_weighted_sum_single(row: Seq<u8>, k: nat, m: int, v: u8, j: nat)
    requires
        in_field(row),
        0 <= m < k,
        v < 64,
        j <= k <= row.len(),
    ensures
        weighted_sum(row, single(k, m, v), j) == (if m < j {
            gf_mul(v, row[m])
        } else {
            0
        }),
    decreases j,
{
    if j > 0 {
        lemma_weighted_sum_single(row, k, m, v, (j - 1) as nat);
        lemma_mul_basics(v, row[m]);
        lemma_mul_basics(0, row[j - 1]);
        lemma_add_laws(gf_mul(v, row[m]), 0, 0);
        lemma_add_laws(0, 0, 0);
    }
}

/// The encoder makes words of field elements from field elements.
pub proof fn lemma_codeword_in_field(data: Seq<u8>, gen: Seq<Seq<u8>>)
    requires
        in_field(data),
        matrix_in_field(gen, data.len()),
    ensures
        in_field(codeword(data, gen)),
        codeword(data, gen).len() == data.len() + gen.len(),
{
    let word = codeword(data, gen);
    assert forall|j: int| 0 <= j < word.len() implies #[trigger] word[j] < 64 by {
        if j >= data.len() {
            assert(in_field(gen[j - data.len()]));
            lemma_weighted_sum_range(gen[j - data.len()], data, data.len());
        }
    }
}

/// The word for a single data symbol is a multiple of the word for the data symbol 1.
pub proof fn lemma_codeword_single(gen: Seq<Seq<u8>>, k: nat, m: int, v: u8)
    requires
        matrix_in_field(gen, k),
        0 <= m < k,
        v < 64,
    ensures
        codeword(single(k, m, v), gen) == poly_scale(unit_word(gen, k, m), v),
{
    let word = codeword(single(k, m, v), gen);
    let multiple = poly_scale(unit_word(gen, k, m), v);
    assert forall|j: int| 0 <= j < k + gen.len() implies word[j] == multiple[j] by {
        lemma_mul_basics(1, v);
        lemma_mul_basics(0, v);
        if j >= k {
            assert(in_field(gen[j - k]));
            lemma_weighted_sum_single(gen[j - k], k, m, v, k);
            lemma_mul_basics(v, gen[j - k][m]);
        }
    }
    assert(word =~= multiple);
}

/// The encoder is additive: the word for a sum of data symbols is the sum of their words.
pub proof fn lemma_codeword_add(gen: Seq<Seq<u8>>, d: Seq<u8>, e: Seq<u8>)
    requires
        matrix_in_field(gen, d.len()),
        in_field(d),
        in_field(e),
        d.len() == e.len(),
    ensures
        codeword(poly_add(d, e), gen) == poly_add(codeword(d, gen), codeword(e, gen)),
{
    let k = d.len();
    let word = codeword(poly_add(d, e), gen);
    let sum = poly_add(codeword(d, gen), codeword(e, gen));
    assert forall|j: int| 0 <= j < k + gen.len() implies word[j] == sum[j] by {
        if j >= k {
            assert(in_field(gen[j - k]));
            lemma_weighted_sum_add(gen[j - k], d, e, k);
        }
    }
    assert(word =~= sum);
}

/// Every word that the encoder makes from the data symbols before symbol `m` has the value
/// zero wherever the generator polynomial has.
proof fn lemma_codeword_eval(
    data: Seq<u8>,
    gen: Seq<Seq<u8>>,
    gen_poly: Seq<u8>,
    a: u8,
    m: nat,
)
    requires
        matrix_matches(gen, gen_poly, data.len()),
        matrix_in_field(gen, data.len()),
        in_field(gen_poly),
        in_field(data),
        a < 64,
        word_eval(gen_poly, a, gen_poly.len()) == 0,
        m <= data.len(),
    ensures
        word_eval(codeword(upto(data, m), gen), a, data.len() + gen.len()) == 0,
    decreases m,
{
    let k = data.len();
    let n = k + gen.len();
    if m == 0 {
        assert(upto(data, 0) =~= single(k, 0, 0));
        lemma_codeword_single(gen, k, 0, 0);
        lemma_unit_word_in_field(gen, k, 0);
        lemma_word_eval_scale(unit_word(gen, k, 0), 0, a, n);
        lemma_word_eval_range(unit_word(gen, k, 0), a, n);
        lemma_mul_basics(word_eval(unit_word(gen, k, 0), a, n), 0);
    } else {
        let before = upto(data, (m - 1) as nat);
        let v = data[m - 1];
        let added = single(k, m - 1, v);
        lemma_codeword_eval(data, gen, gen_poly, a, (m - 1) as nat);
        assert(upto(data, m) =~= poly_add(before, added)) by {
            assert forall|j: int| 0 <= j < k implies upto(data, m)[j] == poly_add(
                before,
                added,
            )[j] by {
                lemma_add_laws(data[j], 0, 0);
                lemma_add_laws(0, 0, 0);
            }
        }
        lemma_codeword_add(gen, before, added);
        lemma_codeword_in_field(before, gen);
        lemma_codeword_in_field(added, gen);
        lemma_word_eval_add(codeword(before, gen), codeword(added, gen), a, n);
        lemma_codeword_single(gen, k, m - 1, v);
        lemma_unit_word_in_field(gen, k, m - 1);
        lemma_word_eval_scale(unit_word(gen, k, m - 1), v, a, n);
        lemma_unit_word_eval(gen, gen_poly, k, m - 1, a);
        lemma_mul_basics(0, v);
        lemma_add_laws(0, 0, 0);
    }
}

/// The word for a single data symbol 1 is a word of field elements.
proof fn lemma_unit_word_in_field(gen: Seq<Seq<u8>>, k: nat, m: int)
    requires
        matrix_in_field(gen, k),
        0 <= m < k,
    ensures
        in_field(unit_word(gen, k, m)),
{
    let word = unit_word(gen, k, m);
    assert forall|j: int| 0 <= j < word.len() implies #[trigger] word[j] < 64 by {
        if j >= k {
            assert(in_field(gen[j - k]));
        }
    }
}

/// Every word that the encoder makes has zero syndromes, if the generator matrix belongs
/// to a generator polynomial whose roots are the first 2t powers of α.
pub proof fn lemma_codeword_syndromes(data: Seq<u8>, gen: Seq<Seq<u8>>, gen_poly: Seq<u8>)
    requires
        matrix_matches(gen, gen_poly, data.len()),
        matrix_in_field(gen, data.len()),
        in_field(gen_poly),
        in_field(data),
        has_roots(gen_poly, gen.len()),
    ensures
        syndrome_poly(reversed(codeword(data, gen)), gen.len()) == poly_zero(
            data.len() + gen.len(),
        ),
{
    let word = codeword(data, gen);
    let n = data.len() + gen.len();
    let syn = syndrome_poly(reversed(word), gen.len());
    assert(upto(data, data.len()) =~= data);
    assert forall|i: int| 0 <= i < n implies syn[i] == 0 by {
        if i < gen.len() {
            let a = antilog(i + 1);
            lemma_antilog_range(i + 1);
            lemma_codeword_eval(data, gen, gen_poly, a, data.len());
            lemma_word_eval(word, a, n);
            assert(reversed(word).skip(0) =~= reversed(word));
        }
    }
    assert(syn =~= poly_zero(n));
}

/// The value of a word with a single symbol `v` at α<sup>e</sup> is `v` times the power of
/// α<sup>e</sup> that the place of the symbol stands for.
pub proof fn lemma_word_eval_single(n: nat, pos: int, v: u8, e: int, j: nat)
    requires
        0 <= pos < n,
        v < 64,
        0 <= e,
        j <= n,
    ensures
        word_eval(single(n, pos, v), antilog(e), j) == (if j <= pos {
            0
        } else {
            gf_mul(v, antilog(e * (j - 1 - pos)))
        }),
    decreases j,
{
    let a = antilog(e);
    lemma_antilog_range(e);
    if j > 0 {
        lemma_word_eval_single(n, pos, v, e, (j - 1) as nat);
        lemma_mul_basics(0, a);
        lemma_add_laws(v, 0, 0);
        lemma_add_laws(0, 0, 0);
        if j - 1 == pos {
            lemma_antilog_step(0);
            lemma_mul_basics(v, 1);
            assert(e * (j - 1 - pos) == 0) by (nonlinear_arith)
                requires
                    j - 1 - pos == 0,
            ;
        } else if j - 1 > pos {
            let before = e * (j - 2 - pos);
            assert(before >= 0 && before + e == e * (j - 1 - pos)) by (nonlinear_arith)
                requires
                    before == e * (j - 2 - pos),
                    e >= 0,
                    j - 2 - pos >= 0,
            ;
            lemma_antilog_range(before);
            lemma_mul_associative(v, antilog(before), a);
            lemma_mul_powers(before, e);
            lemma_antilog_range(before + e);
            lemma_mul_basics(v, antilog(before + e));
            lemma_add_laws(gf_mul(v, antilog(before + e)), 0, 0);
        }
    }
}

} // verus!
