//! Silent payments in partially signed bitcoin transactions.

pub mod bytes;
pub mod text;
pub mod secp;
pub mod key_map;
pub mod hash;
pub mod script;
pub mod psbt;
pub mod crypto;
pub mod bip375;
pub mod collected;
pub mod address_map;
pub mod sending;
pub mod roles;
pub mod wallet;
pub mod receiving;
