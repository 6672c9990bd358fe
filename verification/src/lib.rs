//! Forward error correction for the P25 air interface: the Reed-Solomon and Hamming block
//! codes, together with the Galois field arithmetic and the algebraic decoder they rest on.
//!
//! Every executable function carries a contract over plain mathematical values (bit
//! patterns, sequences of bit patterns), and the contracts are machine-checked. On top of
//! the contracts, the following is proved of the codes:
//!
//! - decoding an encoded word gives back the data with nothing corrected,
//! - a word that differs from an encoded Reed-Solomon word in no more symbols than half
//!   the number of parity symbols decodes to the data, and the symbols in which it differs
//!   are counted,
//! - flipping one bit of a Hamming codeword is corrected and counted as one error, and
//!   flipping two bits never passes for a codeword.

pub mod bits;
pub mod coding;
