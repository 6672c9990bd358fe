//! Encoding and decoding of the (36, 20, 17) long Reed-Solomon code.

use vstd::prelude::*;
use crate::bits::{hexbit_values, Hexbit};
use crate::coding::algebra::{gf_add_arith, gf_mul_bits, lemma_add_arith, lemma_mul_basics};
use crate::coding::bounded_distance::{
    lemma_decoded_errors, lemma_distance_one, symbol_distance,
};
use crate::coding::galois::{antilog, gf_add, gf_mul, log};
use crate::coding::polynomial::poly_zero;
use crate::coding::reed_solomon::systematic::{
    has_roots, in_field, lemma_codeword_in_field, lemma_codeword_syndromes,
    lemma_word_eval_bits, matrix_in_field, matrix_matches, word_eval,
};
use crate::coding::reed_solomon::{
    codeword, decoded_data, generator_rows, lemma_decoded_codeword, reversed, syndrome_poly,
    LongCoefs,
};

verus! {

/// Generator matrix of the code without its identity part, transposed: row p holds the
/// weight of each data symbol in parity symbol p.
pub const GEN: [[u8; 20]; 16] = [
    [
        0o74, 0o04, 0o07, 0o26, 0o23, 0o24, 0o52, 0o55, 0o54, 0o74, 0o54, 0o51, 0o01, 0o11,
        0o06, 0o34, 0o63, 0o71, 0o02, 0o34,
    ],
    [
        0o37, 0o17, 0o23, 0o05, 0o73, 0o51, 0o33, 0o62, 0o51, 0o41, 0o70, 0o07, 0o65, 0o70,
        0o02, 0o31, 0o43, 0o21, 0o01, 0o35,
    ],
    [
        0o34, 0o50, 0o37, 0o07, 0o73, 0o25, 0o14, 0o56, 0o32, 0o30, 0o11, 0o72, 0o32, 0o05,
        0o65, 0o01, 0o25, 0o70, 0o53, 0o02,
    ],
    [
        0o06, 0o24, 0o46, 0o63, 0o41, 0o23, 0o02, 0o25, 0o65, 0o41, 0o03, 0o30, 0o70, 0o10,
        0o11, 0o15, 0o44, 0o44, 0o74, 0o23,
    ],
    [
        0o02, 0o11, 0o56, 0o63, 0o72, 0o22, 0o20, 0o73, 0o77, 0o43, 0o13, 0o65, 0o13, 0o65,
        0o41, 0o44, 0o77, 0o56, 0o02, 0o21,
    ],
    [
        0o07, 0o05, 0o75, 0o27, 0o34, 0o41, 0o06, 0o60, 0o12, 0o22, 0o22, 0o54, 0o44, 0o24,
        0o20, 0o64, 0o63, 0o04, 0o14, 0o27,
    ],
    [
        0o44, 0o30, 0o43, 0o63, 0o21, 0o74, 0o14, 0o15, 0o54, 0o51, 0o16, 0o06, 0o73, 0o15,
        0o45, 0o16, 0o17, 0o30, 0o52, 0o22,
    ],
    [
        0o64, 0o57, 0o45, 0o40, 0o51, 0o66, 0o25, 0o30, 0o13, 0o06, 0o57, 0o21, 0o24, 0o77,
        0o42, 0o24, 0o17, 0o74, 0o74, 0o33,
    ],
    [
        0o26, 0o33, 0o55, 0o06, 0o67, 0o74, 0o52, 0o13, 0o35, 0o64, 0o03, 0o36, 0o12, 0o22,
        0o46, 0o52, 0o64, 0o04, 0o12, 0o64,
    ],
    [
        0o14, 0o03, 0o21, 0o04, 0o16, 0o65, 0o23, 0o17, 0o32, 0o33, 0o45, 0o63, 0o52, 0o24,
        0o54, 0o16, 0o14, 0o23, 0o57, 0o42,
    ],
    [
        0o26, 0o02, 0o50, 0o40, 0o31, 0o70, 0o35, 0o20, 0o56, 0o03, 0o72, 0o50, 0o21, 0o24,
        0o35, 0o06, 0o40, 0o71, 0o24, 0o05,
    ],
    [
        0o44, 0o02, 0o31, 0o45, 0o74, 0o36, 0o74, 0o02, 0o12, 0o47, 0o31, 0o61, 0o55, 0o74,
        0o12, 0o62, 0o74, 0o70, 0o63, 0o73,
    ],
    [
        0o54, 0o15, 0o45, 0o47, 0o11, 0o67, 0o75, 0o70, 0o75, 0o27, 0o30, 0o64, 0o12, 0o07,
        0o40, 0o20, 0o31, 0o63, 0o15, 0o51,
    ],
    [
        0o13, 0o16, 0o27, 0o30, 0o21, 0o45, 0o75, 0o55, 0o01, 0o12, 0o56, 0o52, 0o35, 0o44,
        0o64, 0o13, 0o72, 0o45, 0o42, 0o46,
    ],
    [
        0o77, 0o25, 0o71, 0o75, 0o12, 0o64, 0o43, 0o14, 0o72, 0o55, 0o35, 0o01, 0o14, 0o07,
        0o65, 0o55, 0o54, 0o56, 0o52, 0o73,
    ],
    [
        0o05, 0o26, 0o62, 0o07, 0o21, 0o01, 0o27, 0o47, 0o63, 0o47, 0o22, 0o60, 0o72, 0o46,
        0o33, 0o57, 0o06, 0o43, 0o33, 0o60,
    ],
];

/// The generator polynomial of the code, g(x) = (x + α)(x + α<sup>2</sup>)···(x +
/// α<sup>16</sup>): its coefficients, that of x<sup>16</sup> first.
pub const GENERATOR: [u8; 17] = [
    0o01, 0o34, 0o35, 0o02, 0o23, 0o21, 0o27, 0o22, 0o33, 0o64, 0o42, 0o05, 0o73, 0o51,
    0o46, 0o73, 0o60,
];

/// The codeword for the given 20 data symbols: the data symbols followed by their 16
/// parity symbols.
pub open spec fn encoded(data: Seq<u8>) -> Seq<u8> {
    codeword(data, generator_rows(GEN@))
}

/// The 20 data symbols of the given 36-symbol word with its errors corrected, and the
/// number of errors, or `None` if the word is unrecoverable.
pub open spec fn decoded(word: Seq<u8>) -> Option<(Seq<u8>, nat)> {
    decoded_data(word, 16, 20)
}

/// Calculate the 16 parity hexbits for the first 20 data hexbits in the given buffer,
/// placing the parity hexbits at the end of the buffer.
pub fn encode(buf: &mut [Hexbit; 36])
    ensures
        hexbit_values(final(buf)@) == encoded(hexbit_values(old(buf)@).take(20)),
{
    proof {
        lemma_gen_in_field();
    }
    let ghost before = buf@;
    let (data, parity) = buf.split_at_mut(20);
    super::encode(data, parity, &GEN);
    proof {
        assert(hexbit_values(data@) =~= hexbit_values(before).take(20));
        assert(hexbit_values(buf@) =~= hexbit_values(data@) + hexbit_values(parity@));
    }
}

/// Try to decode the given 36-hexbit word to the nearest codeword, correcting up to 8
/// hexbit errors (up to 48 bit errors.)
///
/// If decoding was successful, return `Some((data, err))`, where `data` is the 20
/// data hexbits and `err` is the number of corrected hexbits. Otherwise, return
/// `None` to indicate an unrecoverable error. The data hexbits are written to the start of
/// the buffer, and the rest of the buffer is left as it was.
pub fn decode(buf: &mut [Hexbit; 36]) -> (r: Option<(&[Hexbit], usize)>)
    ensures
        match r {
            Some((data, err)) => {
                &&& decoded(hexbit_values(old(buf)@)) == Some((hexbit_values(data@), err as nat))
                &&& final(buf)@ == data@ + old(buf)@.skip(20)
            },
            None => {
                &&& decoded(hexbit_values(old(buf)@)) is None
                &&& final(buf)@ == old(buf)@
            },
        },
{
    let ghost before = buf@;
    match super::decode::<LongCoefs>(buf.as_slice()) {
        Some((poly, err)) => {
            let (data, parity) = buf.split_at_mut(20);
            let data = super::extract_data(poly, data);
            assert(buf@ =~= data@ + before.skip(20));
            Some((data, err))
        },
        None => None,
    }
}

/// Every weight in the generator matrix is a field element.
pub proof fn lemma_gen_in_field()
    ensures
        forall|p: int, j: int| 0 <= p < 16 && 0 <= j < 20 ==> #[trigger] GEN[p][j] < 64,
{
}

/// Whether `a` is one of α, α<sup>2</sup>, ..., α<sup>16</sup>.
pub open spec fn is_generator_root(a: u8) -> bool {
    a == 0o02 || a == 0o04 || a == 0o10 || a == 0o20 || a == 0o40 || a == 0o03
        || a == 0o06 || a == 0o14 || a == 0o30 || a == 0o60 || a == 0o43 || a == 0o05
        || a == 0o12 || a == 0o24 || a == 0o50 || a == 0o23
}

proof fn lemma_bits_generator_roots(
    a: u8, s0: u8, s1: u8, s2: u8, s3: u8, s4: u8, s5: u8, s6: u8, s7: u8, s8: u8, s9: u8,
    s10: u8, s11: u8, s12: u8, s13: u8, s14: u8, s15: u8, s16: u8, s17: u8,
)
    by (bit_vector)
    requires
        is_generator_root(a),
        s0 == 0,
        s1 == gf_mul_bits(a, s0) ^ 0o01,
        s2 == gf_mul_bits(a, s1) ^ 0o34,
        s3 == gf_mul_bits(a, s2) ^ 0o35,
        s4 == gf_mul_bits(a, s3) ^ 0o02,
        s5 == gf_mul_bits(a, s4) ^ 0o23,
        s6 == gf_mul_bits(a, s5) ^ 0o21,
        s7 == gf_mul_bits(a, s6) ^ 0o27,
        s8 == gf_mul_bits(a, s7) ^ 0o22,
        s9 == gf_mul_bits(a, s8) ^ 0o33,
        s10 == gf_mul_bits(a, s9) ^ 0o64,
        s11 == gf_mul_bits(a, s10) ^ 0o42,
        s12 == gf_mul_bits(a, s11) ^ 0o05,
        s13 == gf_mul_bits(a, s12) ^ 0o73,
        s14 == gf_mul_bits(a, s13) ^ 0o51,
        s15 == gf_mul_bits(a, s14) ^ 0o46,
        s16 == gf_mul_bits(a, s15) ^ 0o73,
        s17 == gf_mul_bits(a, s16) ^ 0o60,
    ensures
        s17 == 0,
{
}

/// The roots of the generator polynomial are α, α<sup>2</sup>, ..., α<sup>16</sup>.
pub proof fn lemma_generator_roots()
    ensures
        has_roots(GENERATOR@, 16),
        in_field(GENERATOR@),
{
    assert forall|i: int| 1 <= i <= 16 implies word_eval(
        GENERATOR@,
        #[trigger] antilog(i),
        GENERATOR@.len(),
    ) == 0 by {
        let a = antilog(i);
        assert(is_generator_root(a)) by {
            reveal(antilog);
        }
        lemma_word_eval_bits(GENERATOR@, a);
        lemma_bits_generator_roots(
            a,
            word_eval(GENERATOR@, a, 0),
            word_eval(GENERATOR@, a, 1),
            word_eval(GENERATOR@, a, 2),
            word_eval(GENERATOR@, a, 3),
            word_eval(GENERATOR@, a, 4),
            word_eval(GENERATOR@, a, 5),
            word_eval(GENERATOR@, a, 6),
            word_eval(GENERATOR@, a, 7),
            word_eval(GENERATOR@, a, 8),
            word_eval(GENERATOR@, a, 9),
            word_eval(GENERATOR@, a, 10),
            word_eval(GENERATOR@, a, 11),
            word_eval(GENERATOR@, a, 12),
            word_eval(GENERATOR@, a, 13),
            word_eval(GENERATOR@, a, 14),
            word_eval(GENERATOR@, a, 15),
            word_eval(GENERATOR@, a, 16),
            word_eval(GENERATOR@, a, 17),
        );
    }
}

/// What the generator polynomial says an entry of the generator matrix is, from the
/// column after it: x times that column, less the multiple of g(x) that cancels the term
/// x<sup>16</sup>. The sum is written without bit operations.
pub open spec fn matrix_entry(m: int, p: int) -> int {
    gf_add_arith(
        if p + 1 < 16 { GEN[p + 1][m] as int } else { 0 },
        gf_mul(GEN[0][m], GENERATOR[p + 1]) as int,
    )
}

/// The entries in the first quarter of the rows of the generator matrix are what the
/// generator polynomial says.
#[verifier::rlimit(100)]
proof fn lemma_generator_matrix_first(m: int, p: int)
    requires
        1 <= m < 20,
        0 <= p < 4,
    ensures
        GEN[p][m - 1] == matrix_entry(m, p),
{
    reveal(antilog);
    reveal(log);
}

/// The entries in the second quarter of the rows of the generator matrix are what the
/// generator polynomial says.
#[verifier::rlimit(100)]
proof fn lemma_generator_matrix_second(m: int, p: int)
    requires
        1 <= m < 20,
        4 <= p < 8,
    ensures
        GEN[p][m - 1] == matrix_entry(m, p),
{
    reveal(antilog);
    reveal(log);
}

/// The entries in the third quarter of the rows of the generator matrix are what the
/// generator polynomial says.
#[verifier::rlimit(100)]
proof fn lemma_generator_matrix_third(m: int, p: int)
    requires
        1 <= m < 20,
        8 <= p < 12,
    ensures
        GEN[p][m - 1] == matrix_entry(m, p),
{
    reveal(antilog);
    reveal(log);
}

/// The entries in the last quarter of the rows of the generator matrix are what the
/// generator polynomial says.
#[verifier::rlimit(100)]
proof fn lemma_generator_matrix_fourth(m: int, p: int)
    requires
        1 <= m < 20,
        12 <= p < 16,
    ensures
        GEN[p][m - 1] == matrix_entry(m, p),
{
    reveal(antilog);
    reveal(log);
}

/// The generator matrix belongs to the generator polynomial: its last column holds
/// x<sup>16</sup> mod g(x), and each other column holds x times the next column mod g(x).
pub proof fn lemma_generator_matrix()
    ensures
        matrix_matches(generator_rows(GEN@), GENERATOR@, 20),
        matrix_in_field(generator_rows(GEN@), 20),
{
    let gen = generator_rows(GEN@);
    lemma_gen_in_field();
    lemma_generator_in_field();
    assert forall|m: int, p: int| 1 <= m < 20 && 0 <= p < 16 implies #[trigger] gen[p][m - 1]
        == gf_add(
        if p + 1 < 16 { gen[p + 1][m] } else { 0 },
        gf_mul(gen[0][m], GENERATOR@[p + 1]),
    ) by {
        let above = if p + 1 < 16 { GEN[p + 1][m] } else { 0 };
        lemma_mul_basics(GEN[0][m], GENERATOR[p + 1]);
        lemma_add_arith(above, gf_mul(GEN[0][m], GENERATOR[p + 1]));
        if p < 4 {
            lemma_generator_matrix_first(m, p);
        } else if p < 8 {
            lemma_generator_matrix_second(m, p);
        } else if p < 12 {
            lemma_generator_matrix_third(m, p);
        } else {
            lemma_generator_matrix_fourth(m, p);
        }
    }
    lemma_generator_matrix_last();
    assert forall|p: int| 0 <= p < 16 implies (#[trigger] gen[p]).len() == 20 && in_field(
        gen[p],
    ) by {
        assert forall|j: int| 0 <= j < 20 implies #[trigger] gen[p][j] < 64 by {
            assert(GEN[p][j] < 64);
        }
    }
}

/// The last column of the generator matrix holds g(x) without its first term.
proof fn lemma_generator_matrix_last()
    ensures
        forall|p: int| 0 <= p < 16 ==> (#[trigger] GEN[p])[20 - 1] == GENERATOR[p + 1],
{
}

/// Every coefficient of the generator polynomial is a field element, and the first is 1.
proof fn lemma_generator_in_field()
    ensures
        GENERATOR[0] == 1,
        forall|j: int| 0 <= j < 17 ==> #[trigger] GENERATOR[j] < 64,
{
}

/// Every encoded word has zero syndromes.
pub proof fn lemma_encoded_syndromes(data: Seq<u8>)
    requires
        data.len() == 20,
        in_field(data),
    ensures
        encoded(data).len() == 36,
        in_field(encoded(data)),
        syndrome_poly(reversed(encoded(data)), 16) == poly_zero(36),
{
    lemma_generator_roots();
    lemma_generator_matrix();
    lemma_codeword_in_field(data, generator_rows(GEN@));
    lemma_codeword_syndromes(data, generator_rows(GEN@), GENERATOR@);
}

/// Decoding an encoded word gives back the data symbols, with nothing corrected.
pub proof fn lemma_decode_encode(data: Seq<u8>)
    requires
        data.len() == 20,
        in_field(data),
    ensures
        decoded(encoded(data)) == Some((data, 0nat)),
{
    lemma_encoded_syndromes(data);
    lemma_decoded_codeword(encoded(data), 16, 20);
    assert(encoded(data).take(20) =~= data);
}

/// A word that differs from an encoded word in up to 8 symbols is corrected: decoding
/// gives back the data symbols and counts the symbols in which the words differ.
pub proof fn lemma_decode_errors(data: Seq<u8>, received: Seq<u8>)
    requires
        data.len() == 20,
        in_field(data),
        received.len() == 36,
        in_field(received),
        symbol_distance(encoded(data), received) <= 8,
    ensures
        decoded(received) == Some((data, symbol_distance(encoded(data), received))),
{
    lemma_encoded_syndromes(data);
    lemma_decoded_errors(encoded(data), received, 16, 20);
    assert(encoded(data).take(20) =~= data);
}

/// Replacing any one symbol of an encoded word by any other symbol is corrected: decoding
/// gives back the data symbols and counts one corrected symbol.
pub proof fn lemma_decode_encode_single_error(data: Seq<u8>, pos: nat, symbol: u8)
    requires
        data.len() == 20,
        in_field(data),
        pos < 36,
        symbol < 64,
        symbol != encoded(data)[pos as int],
    ensures
        decoded(encoded(data).update(pos as int, symbol)) == Some((data, 1nat)),
{
    lemma_encoded_syndromes(data);
    lemma_distance_one(encoded(data), pos as int, symbol, 36);
    lemma_decode_errors(data, encoded(data).update(pos as int, symbol));
}

} // verus!
