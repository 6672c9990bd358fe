//! Encoding and decoding of the (15, 11, 3) standard Hamming code.

use vstd::prelude::*;
use crate::coding::hamming::{codeword, corrected, lemma_accum_four_rows, parity, syndrome};

verus! {

/// Generator matrix of the code, without its identity part.
pub const GEN: [u16; 4] = [
    0b11111110000,
    0b11110001110,
    0b11001101101,
    0b10101011011,
];

/// Parity-check matrix of the code.
pub const PAR: [u16; 4] = [
    0b111111100001000,
    0b111100011100100,
    0b110011011010010,
    0b101010110110001,
];

/// Maps 4-bit syndrome values to bit error locations.
pub const LOCATIONS: [u16; 16] = [
    0,
    0b0000000000000001,
    0b0000000000000010,
    0b0000000000010000,
    0b0000000000000100,
    0b0000000000100000,
    0b0000000001000000,
    0b0000000010000000,
    0b0000000000001000,
    0b0000000100000000,
    0b0000001000000000,
    0b0000010000000000,
    0b0000100000000000,
    0b0001000000000000,
    0b0010000000000000,
    0b0100000000000000,
];

/// The codeword for the given data bits.
pub open spec fn encoded(data: u16) -> nat {
    codeword(data as u16, GEN@)
}

/// The data bits of the codeword nearest to the given word, and the number of bits
/// corrected to get there, or `None` if the word is unrecoverable.
pub open spec fn decoded(word: u16) -> Option<(u16, nat)> {
    match corrected(word, PAR@, LOCATIONS@) {
        Some((fixed, err)) => Some((fixed >> 4, err)),
        None => None,
    }
}

/// Encode the given 11 bits of data into a 15-bit codeword.
pub fn encode(data: u16) -> (word: u16)
    requires
        data < 2048,
    ensures
        word == encoded(data),
        word < 32768,
        word >> 4 == data,
{
    proof {
        lemma_encoded(data);
    }
    super::encode(data, &GEN)
}

/// Try to decode the given 15-bit word to the nearest codeword, correcting up to 1
/// error.
///
/// If decoding was successful, return `Some((data, err))`, where `data` is the 11
/// data bits and `err` is the number of corrected bits. Otherwise, return `None` to
/// indicate an unrecoverable error.
pub fn decode(word: u16) -> (r: Option<(u16, usize)>)
    requires
        word < 32768,
    ensures
        match r {
            Some((data, err)) => decoded(word) == Some((data, err as nat)),
            None => decoded(word) is None,
        },
{
    match super::decode(word, &PAR, &LOCATIONS) {
        Some((fixed, err)) => {
            proof {
                lemma_corrected_in_range(word);
            }
            Some((fixed >> 4, err))
        },
        None => None,
    }
}

/// The 4 parity bits for the given data bits, written out over the rows of `GEN`.
pub open spec fn parity_bits(d: u16) -> int {
    8 * parity(d & 0b11111110000)
        + 4 * parity(d & 0b11110001110)
        + 2 * parity(d & 0b11001101101)
        + parity(d & 0b10101011011)
}

/// The syndrome of the given word, written out over the rows of `PAR`.
pub open spec fn syndrome_bits(w: u16) -> int {
    8 * parity(w & 0b111111100001000)
        + 4 * parity(w & 0b111100011100100)
        + 2 * parity(w & 0b110011011010010)
        + parity(w & 0b101010110110001)
}

/// The bit error location for the syndrome `s`, as `LOCATIONS` holds it.
pub open spec fn location(s: u16) -> u16 {
    if s == 1 {
        0b0000000000000001
    } else if s == 2 {
        0b0000000000000010
    } else if s == 3 {
        0b0000000000010000
    } else if s == 4 {
        0b0000000000000100
    } else if s == 5 {
        0b0000000000100000
    } else if s == 6 {
        0b0000000001000000
    } else if s == 7 {
        0b0000000010000000
    } else if s == 8 {
        0b0000000000001000
    } else if s == 9 {
        0b0000000100000000
    } else if s == 10 {
        0b0000001000000000
    } else if s == 11 {
        0b0000010000000000
    } else if s == 12 {
        0b0000100000000000
    } else if s == 13 {
        0b0001000000000000
    } else if s == 14 {
        0b0010000000000000
    } else if s == 15 {
        0b0100000000000000
    } else {
        0
    }
}

/// `location` reads the table of bit error locations.
proof fn lemma_location(s: u16)
    requires
        s < 16,
    ensures
        LOCATIONS[s as int] == location(s),
{
}

/// `syndrome_bits` is the syndrome.
proof fn lemma_syndrome(w: u16)
    ensures
        syndrome(w, PAR@) == syndrome_bits(w),
        syndrome(w, PAR@) < 16,
{
    lemma_accum_four_rows(w, 0, PAR@);
}

proof fn lemma_bits_encoded(d: u16, c: u16)
    by (bit_vector)
    requires
        d < 2048,
        c == 16 * d + parity_bits(d),
    ensures
        c < 32768,
        c >> 4 == d,
        syndrome_bits(c) == 0,
{
}

proof fn lemma_bits_single_error(c: u16, i: u16, w: u16, s: u16)
    by (bit_vector)
    requires
        c < 32768,
        syndrome_bits(c) == 0,
        i < 15,
        w == c ^ (1u16 << i),
        s == syndrome_bits(w),
    ensures
        s != 0,
        location(s) != 0,
        w ^ location(s) == c,
{
}

proof fn lemma_bits_double_error(c: u16, i: u16, j: u16, w: u16, s: u16)
    by (bit_vector)
    requires
        c < 32768,
        syndrome_bits(c) == 0,
        i < 15,
        j < 15,
        i != j,
        w == c ^ (1u16 << i) ^ (1u16 << j),
        s == syndrome_bits(w),
    ensures
        s != 0,
        location(s) != 0,
        w ^ location(s) != c,
{
}

proof fn lemma_bits_in_range(w: u16, s: u16)
    by (bit_vector)
    requires
        w < 32768,
        s < 16,
    ensures
        (w ^ location(s)) >> 4 < 2048,
        w >> 4 < 2048,
{
}

/// Correcting a 15-bit word gives a 15-bit word.
proof fn lemma_corrected_in_range(word: u16)
    requires
        word < 32768,
    ensures
        corrected(word, PAR@, LOCATIONS@) matches Some((fixed, _)) ==> fixed >> 4 < 2048,
{
    lemma_syndrome(word);
    let s = syndrome(word, PAR@) as u16;
    lemma_location(s);
    lemma_bits_in_range(word, s);
}

/// The codeword for the given data bits is the data bits with 4 parity bits below them,
/// and its syndrome is zero.
pub proof fn lemma_encoded(data: u16)
    requires
        data < 2048,
    ensures
        encoded(data) < 32768,
        (encoded(data) as u16) >> 4 == data,
        syndrome(encoded(data) as u16, PAR@) == 0,
{
    let d = data as u16;
    lemma_accum_four_rows(d, d as nat, GEN@);
    let c = encoded(data) as u16;
    lemma_bits_encoded(d, c);
    lemma_syndrome(c);
}

/// Decoding a word whose syndrome is zero takes its data bits and corrects nothing.
pub proof fn lemma_decode_codeword(word: u16)
    requires
        syndrome(word, PAR@) == 0,
    ensures
        decoded(word) == Some((word >> 4, 0nat)),
{
}

/// Decoding an encoded word gives back the data bits, with nothing corrected.
pub proof fn lemma_decode_encode(data: u16)
    requires
        data < 2048,
    ensures
        decoded(encoded(data) as u16) == Some((data, 0nat)),
{
    lemma_encoded(data);
}

/// Flipping any one bit of a codeword is corrected: decoding gives the data bits of the
/// codeword and counts one correction.
pub proof fn lemma_decode_single_error(word: u16, i: u16)
    requires
        word < 32768,
        syndrome(word, PAR@) == 0,
        i < 15,
    ensures
        decoded(word ^ (1u16 << i)) == Some((word >> 4, 1nat)),
{
    let w = word ^ (1u16 << i);
    lemma_syndrome(word);
    lemma_syndrome(w);
    let s = syndrome(w, PAR@) as u16;
    lemma_location(s);
    lemma_bits_single_error(word, i, w, s);
}

/// Flipping any one bit of an encoded word is corrected: decoding gives back the data
/// bits and counts one correction.
pub proof fn lemma_decode_encode_single_error(data: u16, i: u16)
    requires
        data < 2048,
        i < 15,
    ensures
        decoded((encoded(data) as u16) ^ (1u16 << i)) == Some((data, 1nat)),
{
    lemma_encoded(data);
    lemma_decode_single_error(encoded(data) as u16, i);
}

/// Flipping any two bits of a codeword is taken for a single bit error: the decoder
/// flips one more bit, which gives a codeword other than the one that was sent, and counts
/// one correction.
pub proof fn lemma_decode_double_error(word: u16, i: u16, j: u16)
    requires
        word < 32768,
        syndrome(word, PAR@) == 0,
        i < 15,
        j < 15,
        i != j,
    ensures
        corrected(word ^ (1u16 << i) ^ (1u16 << j), PAR@, LOCATIONS@) matches Some((fixed, err))
            && err == 1 && fixed != word,
{
    let w = word ^ (1u16 << i) ^ (1u16 << j);
    lemma_syndrome(word);
    lemma_syndrome(w);
    let s = syndrome(w, PAR@) as u16;
    lemma_location(s);
    lemma_bits_double_error(word, i, j, w, s);
}

/// Flipping any two bits of an encoded word is noticed: decoding counts one correction.
pub proof fn lemma_decode_encode_double_error(data: u16, i: u16, j: u16)
    requires
        data < 2048,
        i < 15,
        j < 15,
        i != j,
    ensures
        decoded((encoded(data) as u16) ^ (1u16 << i) ^ (1u16 << j)) matches Some((_, err))
            && err == 1,
{
    lemma_encoded(data);
    lemma_decode_double_error(encoded(data) as u16, i, j);
}

} // verus!
