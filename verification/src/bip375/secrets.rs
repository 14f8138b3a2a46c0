//! The hash over the inputs, applied to shares.

use vstd::prelude::*;
use crate::bytes;
use crate::hash;
use crate::psbt;
use crate::secp;
use crate::bip375::error::InputHashError;
use crate::hash::{checked_input_hash, OutPoint};
use crate::psbt::Input;
use crate::secp::PublicKey;

verus! {

/// The multiple of a point by the hash over the inputs.
pub open spec fn hash_applied(point: Seq<u8>, outpoints: Seq<OutPoint>, key_sum: Seq<u8>) -> Option<
    Seq<u8>,
> {
    let digest = hash::input_digest(outpoints, key_sum);
    if bytes::be_value(digest) < secp::curve_order() {
        secp::point_times(point, digest)
    } else {
        None
    }
}

/// Why the hash over the inputs cannot be applied to a point.
pub open spec fn hash_failure(outpoints: Seq<OutPoint>, key_sum: Seq<u8>) -> InputHashError {
    if bytes::be_value(hash::input_digest(outpoints, key_sum)) < secp::curve_order() {
        InputHashError::BadTweak
    } else {
        InputHashError::AboveCurveOrder
    }
}

/// Multiplies a point by the hash over the inputs, which fails where `hash_applied` has no result.
pub fn apply_input_hash(point: &PublicKey, outpoints: &Vec<OutPoint>, key_sum: &PublicKey) -> (res:
    Result<PublicKey, InputHashError>)
    requires
        outpoints@.len() > 0,
    ensures
        match res {
            Ok(product) => hash_applied(point@, outpoints@, key_sum@) == Some(product@),
            Err(error) => hash_applied(point@, outpoints@, key_sum@) is None && error
                == hash_failure(outpoints@, key_sum@),
        },
{
    match checked_input_hash(outpoints, *key_sum) {
        Ok(Some(scalar)) => match point.mul_tweak(&scalar) {
            Some(product) => Ok(product),
            None => Err(InputHashError::BadTweak),
        },
        _ => Err(InputHashError::AboveCurveOrder),
    }
}

/// The outpoints that inputs spend.
pub fn outpoints_of(inputs: &Vec<Input>) -> (res: Vec<OutPoint>)
    ensures
        res@ == psbt::outpoints(inputs@),
{
    let mut res: Vec<OutPoint> = Vec::new();
    let mut i: usize = 0;
    while i < inputs.len()
        invariant
            i <= inputs@.len(),
            res@ == psbt::outpoints(inputs@).take(i as int),
        decreases inputs@.len() - i,
    {
        res.push(inputs[i].out_point());
        i += 1;
        assert(psbt::outpoints(inputs@).take(i as int) =~= psbt::outpoints(inputs@).take(
            i - 1,
        ).push(psbt::outpoints(inputs@)[i - 1]));
    }
    assert(psbt::outpoints(inputs@).take(i as int) =~= psbt::outpoints(inputs@));
    res
}

/// The hash over the inputs multiplies a point by its digest, where that is below the curve order.
/// Where there is no result, it says whether the digest is too high, or the point has no such
/// multiple.
pub proof fn law_hash_applied(point: Seq<u8>, outpoints: Seq<OutPoint>, key_sum: Seq<u8>)
    ensures
        ({
            let digest = hash::input_digest(outpoints, key_sum);
            let high = bytes::be_value(digest) >= secp::curve_order();
            &&& hash_applied(point, outpoints, key_sum) matches Some(product)
                ==> secp::point_times(point, digest) == Some(product) && !high
            &&& hash_applied(point, outpoints, key_sum) is None ==> high || secp::point_times(
                point,
                digest,
            ) is None
            &&& hash_failure(outpoints, key_sum) is AboveCurveOrder <==> high
            &&& hash_failure(outpoints, key_sum) is BadTweak <==> !high
        }),
{
}

} // verus!
