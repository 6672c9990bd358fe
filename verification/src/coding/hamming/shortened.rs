//! Encoding and decoding of the (10, 6, 3) shortened Hamming code.

use vstd::prelude::*;
use crate::coding::hamming::{codeword, corrected, lemma_accum_four_rows, parity, syndrome};

verus! {

/// Generator matrix of the code, without its identity part.
pub const GEN: [u16; 4] = [
    0b111001,
    0b110101,
    0b101110,
    0b011110,
];

/// Parity-check matrix of the code.
pub const PAR: [u16; 4] = [
    0b1110011000,
    0b1101010100,
    0b1011100010,
    0b0111100001,
];

/// Maps 4-bit syndrome values to bit error locations.
pub const LOCATIONS: [u16; 16] = [
    0,
    0b0000000000000001,
    0b0000000000000010,
    0b0000000000100000,
    0b0000000000000100,
    0,
    0,
    0b0000000001000000,
    0b0000000000001000,
    0,
    0,
    0b0000000010000000,
    0b0000000000010000,
    0b0000000100000000,
    0b0000001000000000,
    0,
];

/// The codeword for the given data bits.
pub open spec fn encoded(data: u8) -> nat {
    codeword(data as u16, GEN@)
}

/// The data bits of the codeword nearest to the given word, and the number of bits
/// corrected to get there, or `None` if the word is unrecoverable.
pub open spec fn decoded(word: u16) -> Option<(u8, nat)> {
    match corrected(word, PAR@, LOCATIONS@) {
        Some((fixed, err)) => Some(((fixed >> 4) as u8, err)),
        None => None,
    }
}

/// Encode the given 6 bits of data into a 10-bit codeword.
pub fn encode(data: u8) -> (word: u16)
    requires
        data < 64,
    ensures
        word == encoded(data),
        word < 1024,
        word >> 4 == data,
{
    proof {
        lemma_encoded(data);
    }
    super::encode(data as u16, &GEN)
}

/// Try to decode the given 10-bit word to the nearest codeword, correcting up to 1
/// error.
///
/// If decoding was successful, return `Some((data, err))`, where `data` is the 6
/// data bits and `err` is the number of corrected bits. Otherwise, return `None` to
/// indicate an unrecoverable error.
pub fn decode(word: u16) -> (r: Option<(u8, usize)>)
    requires
        word < 1024,
    ensures
        match r {
            Some((data, err)) => decoded(word) == Some((data, err as nat)),
            None => decoded(word) is None,
        },
{
    match super::decode(word, &PAR, &LOCATIONS) {
        Some((fixed, err)) => {
            proof {
                lemma_corrected_in_range(word);
            }
            Some(((fixed >> 4) as u8, err))
        },
        None => None,
    }
}

/// The 4 parity bits for the given data bits, written out over the rows of `GEN`.
pub open spec fn parity_bits(d: u16) -> int {
    8 * parity(d & 0b111001)
        + 4 * parity(d & 0b110101)
        + 2 * parity(d & 0b101110)
        + parity(d & 0b011110)
}

/// The syndrome of the given word, written out over the rows of `PAR`.
pub open spec fn syndrome_bits(w: u16) -> int {
    8 * parity(w & 0b1110011000)
        + 4 * parity(w & 0b1101010100)
        + 2 * parity(w & 0b1011100010)
        + parity(w & 0b0111100001)
}

/// The bit error location for the syndrome `s`, as `LOCATIONS` holds it.
pub open spec fn location(s: u16) -> u16 {
    if s == 1 {
        0b0000000000000001
    } else if s == 2 {
        0b0000000000000010
    } else if s == 3 {
        0b0000000000100000
    } else if s == 4 {
        0b0000000000000100
    } else if s == 7 {
        0b0000000001000000
    } else if s == 8 {
        0b0000000000001000
    } else if s == 11 {
        0b0000000010000000
    } else if s == 12 {
        0b0000000000010000
    } else if s == 13 {
        0b0000000100000000
    } else if s == 14 {
        0b0000001000000000
    } else {
        0
    }
}

/// `location` reads the table of bit error locations.
proof fn lemma_location(s: u16)
    requires
        s < 16,
    ensures
        LOCATIONS[s as int] == location(s),
{
}

/// `syndrome_bits` is the syndrome.
proof fn lemma_syndrome(w: u16)
    ensures
        syndrome(w, PAR@) == syndrome_bits(w),
        syndrome(w, PAR@) < 16,
{
    lemma_accum_four_rows(w, 0, PAR@);
}

proof fn lemma_bits_encoded(d: u16, c: u16)
    by (bit_vector)
    requires
        d < 64,
        c == 16 * d + parity_bits(d),
    ensures
        c < 1024,
        c >> 4 == d,
        syndrome_bits(c) == 0,
{
}

proof fn lemma_bits_single_error(c: u16, i: u16, w: u16, s: u16)
    by (bit_vector)
    requires
        c < 1024,
        syndrome_bits(c) == 0,
        i < 10,
        w == c ^ (1u16 << i),
        s == syndrome_bits(w),
    ensures
        s != 0,
        location(s) != 0,
        w ^ location(s) == c,
{
}

proof fn lemma_bits_double_error(c: u16, i: u16, j: u16, w: u16, s: u16)
    by (bit_vector)
    requires
        c < 1024,
        syndrome_bits(c) == 0,
        i < 10,
        j < 10,
        i != j,
        w == c ^ (1u16 << i) ^ (1u16 << j),
        s == syndrome_bits(w),
    ensures
        s != 0,
        w ^ location(s) != c,
{
}

proof fn lemma_bits_in_range(w: u16, s: u16)
    by (bit_vector)
    requires
        w < 1024,
        s < 16,
    ensures
        (w ^ location(s)) >> 4 < 64,
        w >> 4 < 64,
{
}

/// Correcting a 10-bit word gives a 10-bit word.
proof fn lemma_corrected_in_range(word: u16)
    requires
        word < 1024,
    ensures
        corrected(word, PAR@, LOCATIONS@) matches Some((fixed, _)) ==> fixed >> 4 < 64,
{
    lemma_syndrome(word);
    let s = syndrome(word, PAR@) as u16;
    lemma_location(s);
    lemma_bits_in_range(word, s);
}

/// The codeword for the given data bits is the data bits with 4 parity bits below them,
/// and its syndrome is zero.
pub proof fn lemma_encoded(data: u8)
    requires
        data < 64,
    ensures
        encoded(data) < 1024,
        (encoded(data) as u16) >> 4 == data,
        syndrome(encoded(data) as u16, PAR@) == 0,
{
    let d = data as u16;
    lemma_accum_four_rows(d, d as nat, GEN@);
    let c = encoded(data) as u16;
    lemma_bits_encoded(d, c);
    lemma_syndrome(c);
}

/// Decoding a word whose syndrome is zero takes its data bits and corrects nothing.
pub proof fn lemma_decode_codeword(word: u16)
    requires
        syndrome(word, PAR@) == 0,
    ensures
        decoded(word) == Some(((word >> 4) as u8, 0nat)),
{
}

/// Decoding an encoded word gives back the data bits, with nothing corrected.
pub proof fn lemma_decode_encode(data: u8)
    requires
        data < 64,
    ensures
        decoded(encoded(data) as u16) == Some((data, 0nat)),
{
    lemma_encoded(data);
}

/// Flipping any one bit of a codeword is corrected: decoding gives the data bits of the
/// codeword and counts one correction.
pub proof fn lemma_decode_single_error(word: u16, i: u16)
    requires
        word < 1024,
        syndrome(word, PAR@) == 0,
        i < 10,
    ensures
        decoded(word ^ (1u16 << i)) == Some(((word >> 4) as u8, 1nat)),
{
    let w = word ^ (1u16 << i);
    lemma_syndrome(word);
    lemma_syndrome(w);
    let s = syndrome(w, PAR@) as u16;
    lemma_location(s);
    lemma_bits_single_error(word, i, w, s);
}

/// Flipping any one bit of an encoded word is corrected: decoding gives back the data
/// bits and counts one correction.
pub proof fn lemma_decode_encode_single_error(data: u8, i: u16)
    requires
        data < 64,
        i < 10,
    ensures
        decoded((encoded(data) as u16) ^ (1u16 << i)) == Some((data, 1nat)),
{
    lemma_encoded(data);
    lemma_decode_single_error(encoded(data) as u16, i);
}

/// Flipping any two bits of a codeword never passes for a codeword: either the decoder
/// reports the word as unrecoverable, or it flips one more bit, which gives a codeword
/// other than the one that was sent, and counts one correction.
pub proof fn lemma_decode_double_error(word: u16, i: u16, j: u16)
    requires
        word < 1024,
        syndrome(word, PAR@) == 0,
        i < 10,
        j < 10,
        i != j,
    ensures
        match corrected(word ^ (1u16 << i) ^ (1u16 << j), PAR@, LOCATIONS@) {
            Some((fixed, err)) => err == 1 && fixed != word,
            None => true,
        },
{
    let w = word ^ (1u16 << i) ^ (1u16 << j);
    lemma_syndrome(word);
    lemma_syndrome(w);
    let s = syndrome(w, PAR@) as u16;
    lemma_location(s);
    lemma_bits_double_error(word, i, j, w, s);
}

/// Flipping any two bits of an encoded word is noticed: decoding either reports the word
/// as unrecoverable or counts one correction.
pub proof fn lemma_decode_encode_double_error(data: u8, i: u16, j: u16)
    requires
        data < 64,
        i < 10,
        j < 10,
        i != j,
    ensures
        match decoded((encoded(data) as u16) ^ (1u16 << i) ^ (1u16 << j)) {
            Some((_, err)) => err == 1,
            None => true,
        },
{
    lemma_encoded(data);
    lemma_decode_double_error(encoded(data) as u16, i, j);
}

} // verus!
