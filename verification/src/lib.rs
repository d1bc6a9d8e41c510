//! Threshold secret sharing for BIP-39 seed phrases.
//!
//! The crate splits a high-entropy secret into `N` shares such that any `T`
//! of them recover it, working in the binary fields GF(2^128) and GF(2^256).
//! `field` holds the fixed-width polynomial arithmetic and the two fields,
//! `lagrange` the Shamir split and Lagrange reconstruction, and `shares` the
//! mnemonic-level pipeline that a command-line front end drives.

pub mod field;
pub mod lagrange;
pub mod shares;
