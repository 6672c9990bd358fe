//! Encoding and decoding of the (15, 11, 3) standard and (10, 6, 3) shortened Hamming
//! codes described by P25.
//!
//! Both codes can correct up to 1 error. A word is an integer whose most significant used
//! bits are the data bits and whose 4 least significant bits are the parity bits.

use vstd::prelude::*;

pub mod shortened;
pub mod standard;

verus! {

/// Whether `x` has an odd number of bits set, as 1 or 0.
pub open spec fn parity(x: u16) -> u16 {
    let a = x ^ (x >> 8);
    let b = a ^ (a >> 4);
    let c = b ^ (b >> 2);
    let d = c ^ (c >> 1);
    d & 1
}

/// The product of the vector `word` with the first `n` rows of the matrix `mat` over GF(2):
/// the dot product of the word with each row in turn is shifted into the least significant
/// bit of the result, which starts as `init`.
pub open spec fn accum_rows(word: u16, init: nat, mat: Seq<u16>, n: nat) -> nat
    decreases n,
{
    if n == 0 {
        init
    } else {
        (2 * accum_rows(word, init, mat, (n - 1) as nat) + parity(word & mat[n - 1])) as nat
    }
}

/// The syndrome of the word for the parity-check matrix `par`, which is zero for a
/// codeword.
pub open spec fn syndrome(word: u16, par: Seq<u16>) -> nat {
    accum_rows(word, 0, par, par.len())
}

/// The codeword for the given data bits: the data bits followed by one parity bit for each
/// row of the generator matrix `gen`.
pub open spec fn codeword(data: u16, gen: Seq<u16>) -> nat {
    accum_rows(data, data as nat, gen, gen.len())
}

/// The word nearest to the given word, and the number of bits corrected to get there, or
/// `None` if the word is unrecoverable. A word with syndrome zero is a codeword. For any
/// other syndrome, `locs` holds at the index of the syndrome the bit that is in error, or
/// zero if no single bit error gives the syndrome.
pub open spec fn corrected(word: u16, par: Seq<u16>, locs: Seq<u16>) -> Option<(u16, nat)> {
    let s = syndrome(word, par);
    if s == 0 {
        Some((word, 0nat))
    } else if s < locs.len() && locs[s as int] != 0 {
        Some((word ^ locs[s as int], 1nat))
    } else {
        None
    }
}

/// The product of the word with a matrix of up to 16 rows: the j-th bit from the end of the
/// result is the dot product over GF(2) of the word with the j-th row from the end.
///
/// This is `matrix_mul` of the `binfield_matrix` crate. It starts from zero and, for each
/// row in turn, shifts the result left by one bit and sets its lowest bit if the word and
/// the row have an odd number of set bits in common.
#[verifier::external_body]
fn matrix_mul(word: u16, mat: &[u16]) -> (out: usize)
    requires
        mat@.len() <= 16,
    ensures
        out == accum_rows(word, 0, mat@, mat@.len()),
{
    binfield_matrix::matrix_mul(word, mat)
}

/// The bits of the word followed by its product with a matrix, which must fit in 16 bits.
///
/// This is `matrix_mul_systematic` of the `binfield_matrix` crate. It works as `matrix_mul`
/// does, but starts from the word.
#[verifier::external_body]
fn matrix_mul_systematic(word: u16, mat: &[u16]) -> (out: u16)
    requires
        accum_rows(word, word as nat, mat@, mat@.len()) <= u16::MAX,
    ensures
        out == accum_rows(word, word as nat, mat@, mat@.len()),
{
    binfield_matrix::matrix_mul_systematic(word, mat)
}

/// The product with a matrix of 4 rows, written out: 4 bits, one per row, below the bits of
/// the initial value.
pub proof fn lemma_accum_four_rows(word: u16, init: nat, mat: Seq<u16>)
    ensures
        accum_rows(word, init, mat, 4) == 16 * init + 8 * parity(word & mat[0]) + 4 * parity(
            word & mat[1],
        ) + 2 * parity(word & mat[2]) + parity(word & mat[3]),
        parity(word & mat[0]) <= 1,
        parity(word & mat[1]) <= 1,
        parity(word & mat[2]) <= 1,
        parity(word & mat[3]) <= 1,
{
    reveal_with_fuel(accum_rows, 5);
    lemma_parity_bit(word & mat[0]);
    lemma_parity_bit(word & mat[1]);
    lemma_parity_bit(word & mat[2]);
    lemma_parity_bit(word & mat[3]);
}

/// A parity is a single bit.
pub proof fn lemma_parity_bit(x: u16)
    ensures
        parity(x) <= 1,
{
    assert(parity(x) <= 1) by (bit_vector);
}

/// Encode the given data bits with the given generator matrix, which has 4 rows.
fn encode(data: u16, gen: &[u16]) -> (word: u16)
    requires
        gen@.len() == 4,
        data < 4096,
    ensures
        word == codeword(data, gen@),
{
    proof {
        lemma_accum_four_rows(data, data as nat, gen@);
    }
    matrix_mul_systematic(data, gen)
}

/// Try to decode the given word to the nearest codeword, with the given parity-check
/// matrix of up to 16 rows and table from syndromes to bit error locations.
fn decode(word: u16, par: &[u16], locs: &[u16]) -> (r: Option<(u16, usize)>)
    requires
        par@.len() <= 16,
    ensures
        match r {
            Some((fixed, err)) => corrected(word, par@, locs@) == Some((fixed, err as nat)),
            None => corrected(word, par@, locs@) is None,
        },
{
    let s: usize = matrix_mul(word, par);
    if s == 0 {
        return Some((word, 0));
    }
    if s < locs.len() {
        let loc: u16 = locs[s];
        if loc == 0 {
            None
        } else {
            Some((word ^ loc, 1))
        }
    } else {
        None
    }
}

} // verus!
