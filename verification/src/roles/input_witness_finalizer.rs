//! The finalizer of the input witnesses (BIP-174).
//!
//! It turns the signatures of an input into its final witness and removes what was needed only to
//! sign. An input that spends a taproot output by its key has one item in the witness, the Schnorr
//! signature. An input that spends an output to the hash of a witness public key has two, the ECDSA
//! signature and the public key.

use vstd::prelude::*;
use crate::bip375::error::{Error, ExtractionError};
use crate::bip375::extensions::Bip375PsbtExt;
use crate::bytes::copy_bytes;
use crate::psbt::{Input, Psbt};

verus! {

/// The final witness of an input.
pub open spec fn final_witness(input: Input, i: int) -> Result<Seq<Seq<u8>>, Error> {
    match input.tap_key_sig {
        Some(signature) => Ok(seq![signature@]),
        None => if input.partial_sigs@.len() == 0 {
            Err(
                Error::ExtractionFailed(
                    ExtractionError::NoSignatures { input_index: i as usize },
                ),
            )
        } else if input.partial_sigs@.len() > 1 {
            Err(
                Error::ExtractionFailed(
                    ExtractionError::PartialSignatures {
                        input_index: i as usize,
                        count: input.partial_sigs@.len() as usize,
                    },
                ),
            )
        } else {
            Ok(
                seq![
                    input.partial_sigs@[0].signature@,
                    input.partial_sigs@[0].public_key.inner@,
                ],
            )
        },
    }
}

/// The items of a witness.
pub open spec fn items(witness: Seq<Vec<u8>>) -> Seq<Seq<u8>> {
    witness.map_values(|item: Vec<u8>| item@)
}

/// Builds the final witness of an input.
fn build_final_witness(psbt: &Psbt, input_idx: usize) -> (res: Result<Vec<Vec<u8>>, Error>)
    ensures
        input_idx >= psbt.inputs@.len() ==> res == Err::<Vec<Vec<u8>>, _>(
            Error::InvalidInputIndex(input_idx),
        ),
        input_idx < psbt.inputs@.len() ==> match res {
            Ok(witness) => final_witness(psbt.inputs@[input_idx as int], input_idx as int)
                == Ok::<_, Error>(items(witness@)),
            Err(error) => final_witness(psbt.inputs@[input_idx as int], input_idx as int)
                == Err::<Seq<Seq<u8>>, _>(error),
        },
{
    if input_idx >= psbt.inputs.len() {
        return Err(Error::InvalidInputIndex(input_idx));
    }
    let input = &psbt.inputs[input_idx];
    let mut witness: Vec<Vec<u8>> = Vec::new();
    if let Some(signature) = &input.tap_key_sig {
        witness.push(copy_bytes(signature.as_slice()));
        assert(items(witness@) =~= seq![signature@]);
        return Ok(witness);
    }
    let sigs = psbt.get_input_partial_sigs(input_idx);
    if sigs.len() == 0 {
        return Err(
            Error::ExtractionFailed(ExtractionError::NoSignatures { input_index: input_idx }),
        );
    }
    if sigs.len() != 1 {
        return Err(
            Error::ExtractionFailed(
                ExtractionError::PartialSignatures { input_index: input_idx, count: sigs.len() },
            ),
        );
    }
    let (public_key, signature) = &sigs[0];
    witness.push(copy_bytes(signature.as_slice()));
    witness.push(copy_bytes(public_key.as_slice()));
    assert(items(witness@) =~= seq![
        input.partial_sigs@[0].signature@,
        input.partial_sigs@[0].public_key.inner@,
    ]);
    Ok(witness)
}

/// An input without what was needed only to sign, and otherwise as before.
pub open spec fn cleared(before: Input, after: Input) -> bool {
    &&& after == (Input {
        tap_key_sig: None,
        partial_sigs: after.partial_sigs,
        tap_internal_key: None,
        tap_key_origins: after.tap_key_origins,
        bip32_derivations: after.bip32_derivations,
        musig2_participant_pubkeys: after.musig2_participant_pubkeys,
        musig2_pub_nonces: after.musig2_pub_nonces,
        musig2_partial_sigs: after.musig2_partial_sigs,
        sp_tweak: None,
        sp_spend_bip32_derivations: after.sp_spend_bip32_derivations,
        ..before
    })
    &&& after.partial_sigs@.len() == 0
    &&& after.tap_key_origins@.len() == 0
    &&& after.bip32_derivations@.len() == 0
    &&& after.musig2_participant_pubkeys@.len() == 0
    &&& after.musig2_pub_nonces@.len() == 0
    &&& after.musig2_partial_sigs@.len() == 0
    &&& after.sp_spend_bip32_derivations@.len() == 0
}

/// Removes from an input what was needed only to sign: the signatures, the keys and their
/// derivations, the MuSig2 fields and the silent payment tweak.
pub fn clear_input_signing_fields(psbt: &mut Psbt, input_idx: usize) -> (res: Result<(), Error>)
    ensures
        final(psbt).global == old(psbt).global,
        final(psbt).outputs == old(psbt).outputs,
        input_idx >= old(psbt).inputs@.len() ==> res == Err::<(), _>(
            Error::InvalidInputIndex(input_idx),
        ) && *final(psbt) == *old(psbt),
        input_idx < old(psbt).inputs@.len() ==> {
            let after = final(psbt).inputs@[input_idx as int];
            &&& res is Ok
            &&& final(psbt).inputs@ == old(psbt).inputs@.update(input_idx as int, after)
            &&& cleared(old(psbt).inputs@[input_idx as int], after)
        },
{
    if input_idx >= psbt.inputs.len() {
        return Err(Error::InvalidInputIndex(input_idx));
    }
    psbt.inputs[input_idx].tap_key_sig = None;
    psbt.inputs[input_idx].partial_sigs.clear();
    psbt.inputs[input_idx].tap_internal_key = None;
    psbt.inputs[input_idx].tap_key_origins.clear();
    psbt.inputs[input_idx].bip32_derivations.clear();
    psbt.inputs[input_idx].musig2_participant_pubkeys.clear();
    psbt.inputs[input_idx].musig2_pub_nonces.clear();
    psbt.inputs[input_idx].musig2_partial_sigs.clear();
    psbt.inputs[input_idx].sp_tweak = None;
    psbt.inputs[input_idx].sp_spend_bip32_derivations.clear();
    assert(psbt.inputs@ =~= old(psbt).inputs@.update(
        input_idx as int,
        psbt.inputs@[input_idx as int],
    ));
    Ok(())
}

/// An input with its final witness, and otherwise as before.
pub open spec fn has_witness(before: Input, after: Input, i: int) -> bool {
    &&& after == (Input { final_script_witness: after.final_script_witness, ..before })
    &&& after.final_script_witness matches Some(witness) && final_witness(before, i) == Ok::<
        _,
        Error,
    >(items(witness@))
}

/// An input with its final witness, and without what was needed only to sign.
pub open spec fn finalized(before: Input, after: Input, i: int) -> bool {
    &&& cleared(
        (Input { final_script_witness: after.final_script_witness, ..before }),
        after,
    )
    &&& after.final_script_witness matches Some(witness) && final_witness(before, i) == Ok::<
        _,
        Error,
    >(items(witness@))
}

/// The first input that cannot be finalized, or the number of inputs.
pub open spec fn first_unsigned(inputs: Seq<Input>, n: int) -> bool {
    &&& 0 <= n <= inputs.len()
    &&& n < inputs.len() ==> final_witness(inputs[n], n) is Err
    &&& forall|i: int| 0 <= i < n ==> final_witness(#[trigger] inputs[i], i) is Ok
}

/// What finalizing the witnesses of a transaction does to it, and what is returned.
pub open spec fn witnessing(before: Psbt, after: Psbt, res: Result<(), Error>) -> bool {
    &&& after.global == before.global
    &&& after.outputs == before.outputs
    &&& after.inputs@.len() == before.inputs@.len()
    &&& match res {
        Ok(_) => {
            &&& first_unsigned(before.inputs@, before.inputs@.len() as int)
            &&& forall|i: int|
                0 <= i < before.inputs@.len() ==> finalized(
                    before.inputs@[i],
                    #[trigger] after.inputs@[i],
                    i,
                )
        },
        Err(error) => exists|n: int|
            {
                &&& #[trigger] first_unsigned(before.inputs@, n)
                &&& n < before.inputs@.len()
                &&& final_witness(before.inputs@[n], n) == Err::<Seq<Seq<u8>>, _>(error)
                &&& forall|i: int|
                    0 <= i < n ==> has_witness(
                        before.inputs@[i],
                        #[trigger] after.inputs@[i],
                        i,
                    )
                &&& forall|i: int|
                    n <= i < before.inputs@.len() ==> (#[trigger] after.inputs@[i])
                        == before.inputs@[i]
            },
    }
}

/// Gives each input its final witness, and removes what was needed only to sign. Where an input has
/// no signature or too many, the inputs before it have their witnesses, and nothing is removed.
pub fn finalize_input_witnesses(psbt: &mut Psbt) -> (res: Result<(), Error>)
    ensures
        final(psbt).global == old(psbt).global,
        final(psbt).outputs == old(psbt).outputs,
        final(psbt).inputs@.len() == old(psbt).inputs@.len(),
        match res {
            Ok(_) => {
                &&& first_unsigned(old(psbt).inputs@, old(psbt).inputs@.len() as int)
                &&& forall|i: int|
                    0 <= i < old(psbt).inputs@.len() ==> finalized(
                        old(psbt).inputs@[i],
                        #[trigger] final(psbt).inputs@[i],
                        i,
                    )
            },
            Err(error) => exists|n: int|
                {
                    &&& #[trigger] first_unsigned(old(psbt).inputs@, n)
                    &&& n < old(psbt).inputs@.len()
                    &&& final_witness(old(psbt).inputs@[n], n) == Err::<Seq<Seq<u8>>, _>(error)
                    &&& forall|i: int|
                        0 <= i < n ==> has_witness(
                            old(psbt).inputs@[i],
                            #[trigger] final(psbt).inputs@[i],
                            i,
                        )
                    &&& forall|i: int|
                        n <= i < old(psbt).inputs@.len() ==> (#[trigger] final(psbt).inputs@[i])
                            == old(psbt).inputs@[i]
                },
        },
        witnessing(*old(psbt), *final(psbt), res),
{
    let ghost before = psbt.inputs@;
    let num_inputs = psbt.num_inputs();
    let mut i: usize = 0;
    while i < num_inputs
        invariant
            i <= num_inputs == before.len(),
            before == old(psbt).inputs@,
            psbt.global == old(psbt).global,
            psbt.outputs == old(psbt).outputs,
            psbt.inputs@.len() == before.len(),
            forall|j: int|
                0 <= j < i ==> has_witness(before[j], #[trigger] psbt.inputs@[j], j),
            forall|j: int| i <= j < before.len() ==> (#[trigger] psbt.inputs@[j]) == before[j],
        decreases num_inputs - i,
    {
        assert(psbt.inputs@[i as int] == before[i as int]);
        match build_final_witness(psbt, i) {
            Ok(witness) => {
                psbt.inputs[i].final_script_witness = Some(witness);
            },
            Err(error) => {
                proof {
                    assert forall|j: int| 0 <= j < i implies final_witness(
                        #[trigger] before[j],
                        j,
                    ) is Ok by {
                        assert(has_witness(before[j], psbt.inputs@[j], j));
                    }
                    assert(first_unsigned(before, i as int));
                }
                return Err(error);
            },
        }
        i += 1;
    }
    let ghost witnessed = psbt.inputs@;
    proof {
        assert forall|j: int| 0 <= j < before.len() implies final_witness(
            #[trigger] before[j],
            j,
        ) is Ok by {
            assert(has_witness(before[j], witnessed[j], j));
        }
    }
    let mut k: usize = 0;
    while k < num_inputs
        invariant
            k <= num_inputs == before.len(),
            psbt.global == old(psbt).global,
            psbt.outputs == old(psbt).outputs,
            psbt.inputs@.len() == before.len(),
            witnessed.len() == before.len(),
            forall|j: int|
                0 <= j < before.len() ==> has_witness(before[j], #[trigger] witnessed[j], j),
            forall|j: int| 0 <= j < k ==> cleared(witnessed[j], #[trigger] psbt.inputs@[j]),
            forall|j: int|
                k <= j < before.len() ==> (#[trigger] psbt.inputs@[j]) == witnessed[j],
        decreases num_inputs - k,
    {
        let res = clear_input_signing_fields(psbt, k);
        assert(res is Ok);
        k += 1;
    }
    proof {
        assert forall|j: int| 0 <= j < before.len() implies finalized(
            before[j],
            #[trigger] psbt.inputs@[j],
            j,
        ) by {
            assert(has_witness(before[j], witnessed[j], j));
            assert(cleared(witnessed[j], psbt.inputs@[j]));
        }
    }
    Ok(())
}

/// A finalized input has no signature left, so it is not finalized a second time.
pub proof fn law_finalized_once(before: Input, after: Input, i: int)
    requires
        finalized(before, after, i),
    ensures
        final_witness(after, i) == Err::<Seq<Seq<u8>>, _>(
            Error::ExtractionFailed(ExtractionError::NoSignatures { input_index: i as usize }),
        ),
{
}

/// Where the witnesses are finalized, the witness of every input, whatever its position, is its
/// taproot signature alone, or else the one ECDSA signature followed by the compressed public key.
/// The transaction is otherwise as before, but for the fields that were needed only to sign, which
/// are gone.
pub proof fn law_final_witnesses(before: Psbt, after: Psbt, i: int)
    requires
        witnessing(before, after, Ok(())),
        0 <= i < before.inputs@.len(),
    ensures
        after.global == before.global,
        after.outputs == before.outputs,
        after.inputs@.len() == before.inputs@.len(),
        after.inputs@[i].final_script_witness is Some,
        before.inputs@[i].tap_key_sig matches Some(signature) ==> {
            let witness = after.inputs@[i].final_script_witness->Some_0@;
            witness.len() == 1 && witness[0]@ == signature@
        },
        before.inputs@[i].tap_key_sig is None ==> {
            let witness = after.inputs@[i].final_script_witness->Some_0@;
            &&& before.inputs@[i].partial_sigs@.len() == 1
            &&& witness.len() == 2
            &&& witness[0]@ == before.inputs@[i].partial_sigs@[0].signature@
            &&& witness[1]@ == before.inputs@[i].partial_sigs@[0].public_key.inner@
        },
        after.inputs@[i].tap_key_sig is None,
        after.inputs@[i].tap_internal_key is None,
        after.inputs@[i].sp_tweak is None,
        after.inputs@[i].partial_sigs@.len() == 0,
        after.inputs@[i].tap_key_origins@.len() == 0,
        after.inputs@[i].bip32_derivations@.len() == 0,
        after.inputs@[i].musig2_participant_pubkeys@.len() == 0,
        after.inputs@[i].musig2_pub_nonces@.len() == 0,
        after.inputs@[i].musig2_partial_sigs@.len() == 0,
        after.inputs@[i].sp_spend_bip32_derivations@.len() == 0,
        after.inputs@[i].previous_txid == before.inputs@[i].previous_txid,
        after.inputs@[i].spent_output_index == before.inputs@[i].spent_output_index,
        after.inputs@[i].sequence == before.inputs@[i].sequence,
        after.inputs@[i].min_time == before.inputs@[i].min_time,
        after.inputs@[i].min_height == before.inputs@[i].min_height,
        after.inputs@[i].non_witness_utxo == before.inputs@[i].non_witness_utxo,
        after.inputs@[i].witness_utxo == before.inputs@[i].witness_utxo,
        after.inputs@[i].sighash_type == before.inputs@[i].sighash_type,
        after.inputs@[i].redeem_script == before.inputs@[i].redeem_script,
        after.inputs@[i].witness_script == before.inputs@[i].witness_script,
        after.inputs@[i].final_script_sig == before.inputs@[i].final_script_sig,
        after.inputs@[i].ripemd160_preimages == before.inputs@[i].ripemd160_preimages,
        after.inputs@[i].sha256_preimages == before.inputs@[i].sha256_preimages,
        after.inputs@[i].hash160_preimages == before.inputs@[i].hash160_preimages,
        after.inputs@[i].hash256_preimages == before.inputs@[i].hash256_preimages,
        after.inputs@[i].tap_script_sigs == before.inputs@[i].tap_script_sigs,
        after.inputs@[i].tap_scripts == before.inputs@[i].tap_scripts,
        after.inputs@[i].tap_merkle_root == before.inputs@[i].tap_merkle_root,
        after.inputs@[i].sp_ecdh_shares == before.inputs@[i].sp_ecdh_shares,
        after.inputs@[i].sp_dleq_proofs == before.inputs@[i].sp_dleq_proofs,
        after.inputs@[i].proprietaries == before.inputs@[i].proprietaries,
        after.inputs@[i].unknowns == before.inputs@[i].unknowns,
{
    assert(finalized(before.inputs@[i], after.inputs@[i], i));
    let witness = after.inputs@[i].final_script_witness->Some_0@;
    assert(items(witness).len() == witness.len());
    assert(forall|k: int| 0 <= k < witness.len() ==> items(witness)[k] == (#[trigger] witness[k])@);
    if before.inputs@[i].tap_key_sig is Some {
        assert(items(witness)[0] == witness[0]@);
    } else {
        assert(items(witness)[0] == witness[0]@);
        assert(items(witness)[1] == witness[1]@);
    }
}

/// The witnesses are finalized exactly where each input has a taproot signature or exactly one
/// ECDSA signature. Otherwise the error names the first input without: that it has no signature,
/// or how many it has. The inputs before it then have their witnesses, and keep all else.
pub proof fn law_witnesses_fail_at_first_unsigned(before: Psbt, after: Psbt, res: Result<(), Error>)
    requires
        witnessing(before, after, res),
    ensures
        res is Ok <==> forall|i: int|
            0 <= i < before.inputs@.len() ==> (#[trigger] before.inputs@[i]).tap_key_sig is Some
                || before.inputs@[i].partial_sigs@.len() == 1,
        res matches Err(error) ==> exists|n: int|
            {
                let count = before.inputs@[n].partial_sigs@.len();
                &&& 0 <= n < before.inputs@.len()
                &&& (#[trigger] before.inputs@[n]).tap_key_sig is None
                &&& count != 1
                &&& error == (if count == 0 {
                    Error::ExtractionFailed(
                        ExtractionError::NoSignatures { input_index: n as usize },
                    )
                } else {
                    Error::ExtractionFailed(
                        ExtractionError::PartialSignatures {
                            input_index: n as usize,
                            count: count as usize,
                        },
                    )
                })
                &&& forall|i: int|
                    0 <= i < n ==> {
                        &&& (#[trigger] before.inputs@[i]).tap_key_sig is Some
                            || before.inputs@[i].partial_sigs@.len() == 1
                        &&& after.inputs@[i].final_script_witness is Some
                        &&& after.inputs@[i] == (Input {
                            final_script_witness: after.inputs@[i].final_script_witness,
                            ..before.inputs@[i]
                        })
                    }
                &&& forall|i: int|
                    n <= i < before.inputs@.len() ==> (#[trigger] after.inputs@[i])
                        == before.inputs@[i]
            },
{
    match res {
        Ok(_) => {
            assert forall|i: int| 0 <= i < before.inputs@.len() implies (
            #[trigger] before.inputs@[i]).tap_key_sig is Some
                || before.inputs@[i].partial_sigs@.len() == 1 by {
                assert(finalized(before.inputs@[i], after.inputs@[i], i));
            }
        },
        Err(error) => {
            let n = choose|n: int|
                {
                    &&& #[trigger] first_unsigned(before.inputs@, n)
                    &&& n < before.inputs@.len()
                    &&& final_witness(before.inputs@[n], n) == Err::<Seq<Seq<u8>>, _>(error)
                    &&& forall|i: int|
                        0 <= i < n ==> has_witness(
                            before.inputs@[i],
                            #[trigger] after.inputs@[i],
                            i,
                        )
                    &&& forall|i: int|
                        n <= i < before.inputs@.len() ==> (#[trigger] after.inputs@[i])
                            == before.inputs@[i]
                };
            assert(before.inputs@[n].tap_key_sig is None);
            assert forall|i: int| 0 <= i < n implies (#[trigger] before.inputs@[i]).tap_key_sig
                is Some || before.inputs@[i].partial_sigs@.len() == 1 by {
                assert(has_witness(before.inputs@[i], after.inputs@[i], i));
            }
            assert forall|i: int| 0 <= i < n implies (#[trigger] after.inputs@[i])
                == (Input {
                final_script_witness: after.inputs@[i].final_script_witness,
                ..before.inputs@[i]
            }) by {
                assert(has_witness(before.inputs@[i], after.inputs@[i], i));
            }
        },
    }
}

/// An input at one position gets the witness that it gets at any other, and is refused at one
/// position where it is refused at any other.
pub proof fn law_witness_does_not_depend_on_position(input: Input, i: int, j: int)
    ensures
        final_witness(input, i) is Ok == final_witness(input, j) is Ok,
        final_witness(input, i) is Ok ==> final_witness(input, i) == final_witness(input, j),
{
}

/// Clearing an input removes exactly its signatures, its keys with their derivations, its MuSig2
/// fields and its silent payment tweak.
pub proof fn law_cleared(before: Input, after: Input)
    requires
        cleared(before, after),
    ensures
        after.tap_key_sig is None,
        after.tap_internal_key is None,
        after.sp_tweak is None,
        after.partial_sigs@.len() == 0,
        after.tap_key_origins@.len() == 0,
        after.bip32_derivations@.len() == 0,
        after.musig2_participant_pubkeys@.len() == 0,
        after.musig2_pub_nonces@.len() == 0,
        after.musig2_partial_sigs@.len() == 0,
        after.sp_spend_bip32_derivations@.len() == 0,
        after.previous_txid == before.previous_txid,
        after.spent_output_index == before.spent_output_index,
        after.sequence == before.sequence,
        after.min_time == before.min_time,
        after.min_height == before.min_height,
        after.non_witness_utxo == before.non_witness_utxo,
        after.witness_utxo == before.witness_utxo,
        after.sighash_type == before.sighash_type,
        after.redeem_script == before.redeem_script,
        after.witness_script == before.witness_script,
        after.final_script_sig == before.final_script_sig,
        after.ripemd160_preimages == before.ripemd160_preimages,
        after.sha256_preimages == before.sha256_preimages,
        after.hash160_preimages == before.hash160_preimages,
        after.hash256_preimages == before.hash256_preimages,
        after.tap_script_sigs == before.tap_script_sigs,
        after.tap_scripts == before.tap_scripts,
        after.tap_merkle_root == before.tap_merkle_root,
        after.sp_ecdh_shares == before.sp_ecdh_shares,
        after.sp_dleq_proofs == before.sp_dleq_proofs,
        after.proprietaries == before.proprietaries,
        after.unknowns == before.unknowns,
        after.final_script_witness == before.final_script_witness,
{
}

} // verus!
