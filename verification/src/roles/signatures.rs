//! The signatures of the silent payment inputs.

use vstd::prelude::*;
use crate::bytes::copy_bytes;
use crate::psbt::Input;

verus! {

/// The signature of a silent payment input, with the key that it verifies against.
#[derive(Clone, Debug, PartialEq, Eq)]
pub struct SpSignature {
    pub input_index: usize,
    pub output_key: [u8; 32],
    /// The signature, as it is pushed to the stack.
    pub signature: Vec<u8>,
}

/// The last of the first `n` signatures for an input.
pub open spec fn last_signature(signatures: Seq<SpSignature>, n: int, i: int) -> Option<
    Seq<u8>,
>
    decreases n,
{
    if n <= 0 {
        None
    } else if signatures[n - 1].input_index == i {
        Some(signatures[n - 1].signature@)
    } else {
        last_signature(signatures, n - 1, i)
    }
}

/// Inputs have the first `n` signatures, and are otherwise as before.
pub open spec fn signed(
    before: Seq<Input>,
    after: Seq<Input>,
    signatures: Seq<SpSignature>,
    n: int,
) -> bool {
    &&& after.len() == before.len()
    &&& forall|i: int|
        0 <= i < before.len() ==> match last_signature(signatures, n, i) {
            Some(signature) => (#[trigger] after[i]) == (Input {
                tap_key_sig: after[i].tap_key_sig,
                ..before[i]
            }) && (after[i].tap_key_sig matches Some(sig) && sig@ == signature),
            None => after[i] == before[i],
        }
}

/// The keys that signatures verify against.
pub open spec fn signature_keys(signatures: Seq<SpSignature>) -> Seq<[u8; 32]> {
    signatures.map_values(|signature: SpSignature| signature.output_key)
}

/// Puts signatures into inputs.
pub fn record_signatures(inputs: &mut Vec<Input>, signatures: &Vec<SpSignature>) -> (res: Vec<
    [u8; 32],
>)
    requires
        forall|i: int|
            0 <= i < signatures@.len() ==> (#[trigger] signatures@[i]).input_index < old(
                inputs,
            )@.len(),
    ensures
        signed(old(inputs)@, final(inputs)@, signatures@, signatures@.len() as int),
        res@ == signature_keys(signatures@),
{
    let ghost before = inputs@;
    let mut keys: Vec<[u8; 32]> = Vec::new();
    let mut n: usize = 0;
    while n < signatures.len()
        invariant
            n <= signatures@.len(),
            forall|i: int|
                0 <= i < signatures@.len() ==> (#[trigger] signatures@[i]).input_index
                    < before.len(),
            signed(before, inputs@, signatures@, n as int),
            keys@ == signature_keys(signatures@).take(n as int),
        decreases signatures@.len() - n,
    {
        let signature = &signatures[n];
        let input_index = signature.input_index;
        inputs[input_index].tap_key_sig = Some(copy_bytes(signature.signature.as_slice()));
        keys.push(signature.output_key);
        n += 1;
        assert(keys@ =~= signature_keys(signatures@).take(n as int));
    }
    assert(signature_keys(signatures@).take(n as int) =~= signature_keys(signatures@));
    keys
}

/// An input gets the last signature that is for it: where a signature stands in the list and none
/// behind it is for the same input, the input has that one. It is otherwise as before.
pub proof fn law_last_signature_stays(
    before: Seq<Input>,
    after: Seq<Input>,
    signatures: Seq<SpSignature>,
    j: int,
)
    requires
        signed(before, after, signatures, signatures.len() as int),
        0 <= j < signatures.len(),
        signatures[j].input_index < before.len(),
        forall|k: int|
            j < k < signatures.len() ==> (#[trigger] signatures[k]).input_index
                != signatures[j].input_index,
    ensures
        after.len() == before.len(),
        after[signatures[j].input_index as int].tap_key_sig matches Some(signature) && signature@
            == signatures[j].signature@,
        after[signatures[j].input_index as int] == (Input {
            tap_key_sig: after[signatures[j].input_index as int].tap_key_sig,
            ..before[signatures[j].input_index as int]
        }),
{
    let i = signatures[j].input_index as int;
    lemma_last_signature(signatures, signatures.len() as int, j);
    assert(after[i] == after[signatures[j].input_index as int]);
}

proof fn lemma_last_signature(signatures: Seq<SpSignature>, n: int, j: int)
    requires
        0 <= j < n <= signatures.len(),
        forall|k: int|
            j < k < n ==> (#[trigger] signatures[k]).input_index != signatures[j].input_index,
    ensures
        last_signature(signatures, n, signatures[j].input_index as int) == Some(
            signatures[j].signature@,
        ),
    decreases n,
{
    if j < n - 1 {
        lemma_last_signature(signatures, n - 1, j);
    }
}

/// An input without a signature in the list stays as it was.
pub proof fn law_unsigned_inputs_stay(
    before: Seq<Input>,
    after: Seq<Input>,
    signatures: Seq<SpSignature>,
    i: int,
)
    requires
        signed(before, after, signatures, signatures.len() as int),
        0 <= i < before.len(),
        forall|k: int|
            0 <= k < signatures.len() ==> (#[trigger] signatures[k]).input_index != i,
    ensures
        after[i] == before[i],
{
    lemma_no_signature(signatures, signatures.len() as int, i);
    assert(after[i] == after[i]);
}

proof fn lemma_no_signature(signatures: Seq<SpSignature>, n: int, i: int)
    requires
        0 <= n <= signatures.len(),
        forall|k: int|
            0 <= k < signatures.len() ==> (#[trigger] signatures[k]).input_index != i,
    ensures
        last_signature(signatures, n, i) is None,
    decreases n,
{
    if n > 0 {
        lemma_no_signature(signatures, n - 1, i);
    }
}

/// There is one key for each signature, in their order.
pub proof fn law_signature_keys(signatures: Seq<SpSignature>, j: int)
    requires
        0 <= j < signatures.len(),
    ensures
        signature_keys(signatures).len() == signatures.len(),
        signature_keys(signatures)[j] == signatures[j].output_key,
{
}

} // verus!
