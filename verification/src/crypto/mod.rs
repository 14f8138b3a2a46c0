//! Cryptographic operations.

pub mod error;
