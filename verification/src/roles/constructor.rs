//! The constructor: starts a transaction from its outputs.

use vstd::prelude::*;
use crate::psbt;
use crate::bip375::error::Error;
use crate::psbt::{Global, Output, Psbt};

verus! {

/// A transaction with these outputs and no inputs, to which inputs and outputs may be added.
pub open spec fn starts_with(psbt: Psbt, outputs: Seq<Output>) -> bool {
    &&& psbt::blank_global(
        (Global { tx_modifiable_flags: 0, output_count: 0, ..psbt.global }),
    )
    &&& psbt.global.tx_modifiable_flags == 3
    &&& psbt.global.output_count == outputs.len()
    &&& psbt.inputs@.len() == 0
    &&& psbt.outputs@ == outputs
}

/// Starts a transaction with outputs in this order.
pub fn construct(outputs: Vec<Output>) -> (res: Psbt)
    ensures
        starts_with(res, outputs@),
{
    let mut global = Global::default();
    global.tx_modifiable_flags = 3;
    global.output_count = outputs.len();
    Psbt { global, inputs: Vec::new(), outputs }
}

/// Calls `rand::seq::SliceRandom::shuffle` with the generator `rand::thread_rng`: the outputs
/// stand in some order afterwards, and are the same ones.
#[verifier::external_body]
fn shuffle(outputs: &mut Vec<Output>)
    ensures
        final(outputs)@.to_multiset() == old(outputs)@.to_multiset(),
        final(outputs)@.len() == old(outputs)@.len(),
{
    rand::seq::SliceRandom::shuffle(outputs.as_mut_slice(), &mut rand::thread_rng());
}

/// The role of the constructor.
pub trait ConstructorPsbtExt {
    /// Starts a transaction with the outputs in a random order.
    fn create_new_transaction(outputs: Vec<Output>) -> Result<Self, Error> where Self: Sized;
}

impl ConstructorPsbtExt for Psbt {
    fn create_new_transaction(outputs: Vec<Output>) -> (res: Result<Self, Error>)
        ensures
            res matches Ok(psbt) && starts_with(psbt, psbt.outputs@) && psbt.outputs@.to_multiset()
                == outputs@.to_multiset() && psbt.outputs@.len() == outputs@.len(),
    {
        let mut outputs = outputs;
        shuffle(&mut outputs);
        Ok(construct(outputs))
    }
}

/// A new transaction has no inputs, and the outputs that it was given. It is of version 2 in both
/// respects, inputs and outputs may be added to it, and it holds nothing else.
pub proof fn law_new_transaction(psbt: Psbt, outputs: Seq<Output>)
    requires
        starts_with(psbt, outputs),
    ensures
        psbt.inputs@.len() == 0,
        psbt.outputs@ == outputs,
        psbt.global.version == 2,
        psbt.global.tx_version == 2,
        psbt.global.fallback_lock_time is None,
        psbt.global.tx_modifiable_flags == 3,
        psbt.global.input_count == 0,
        psbt.global.output_count == outputs.len(),
        psbt.global.xpubs@.len() == 0,
        psbt.global.sp_ecdh_shares@.dom() == Set::<Seq<u8>>::empty(),
        psbt.global.sp_dleq_proofs@.dom() == Set::<Seq<u8>>::empty(),
        psbt.global.proprietaries@.len() == 0,
        psbt.global.unknowns@.len() == 0,
{
    assert(psbt.global.sp_ecdh_shares@.dom() =~= Set::empty());
    assert(psbt.global.sp_dleq_proofs@.dom() =~= Set::empty());
}

} // verus!
