//! Known-plaintext selection for a noisy monoalphabetic substitution cipher.
//!
//! Given a ciphertext and a list of candidate plaintexts of equal length, the
//! library rules out the candidates that cannot have produced the ciphertext
//! and picks, among the others, the one whose symbol frequencies are closest
//! to those of the ciphertext.

pub mod algo;
pub mod encryption;
pub mod metrics;
