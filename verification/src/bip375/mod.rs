//! Sending silent payments with partially signed transactions.

pub mod error;
pub mod extensions;
pub mod fields;
pub mod input_key;
pub mod secrets;
pub mod shares;
pub mod types;
pub mod utils;
