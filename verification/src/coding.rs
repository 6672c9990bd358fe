//! Encoding and decoding of the error correcting codes.
//!
//! - `galois` and `polynomial` hold the arithmetic of the 64-element field and of the
//!   polynomials over it, `algebra` the laws of the field, and `evaluation` those of the
//!   values of polynomials.
//! - `bmcf` finds the errors in a word from its syndromes.
//! - `reed_solomon` and `hamming` hold the codes.
//! - `recurrence`, `correction`, `unique` and `bounded_distance` show that the decoder
//!   finds the errors in a word that is within half the distance of a code from a
//!   codeword.

pub mod algebra;
pub mod bmcf;
pub mod bounded_distance;
pub mod correction;
pub mod evaluation;
pub mod galois;
pub mod hamming;
pub mod polynomial;
pub mod recurrence;
pub mod reed_solomon;
pub mod unique;
