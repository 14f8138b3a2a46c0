//! The roles that work on a transaction one after another.

pub mod aggregation;
pub mod constructor;
pub mod input_finalizer;
pub mod input_witness_finalizer;
pub mod output_scripts;
pub mod payments;
pub mod share_check;
pub mod signatures;
pub mod signer;
pub mod sp_outputs;
