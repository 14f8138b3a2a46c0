//! The wallet that spends silent payment outputs.

pub mod coin_select;
pub mod spend;
