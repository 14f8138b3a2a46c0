//! The payments that the silent payment outputs make.

use vstd::prelude::*;
use crate::bip375::error;
use crate::bip375::input_key;
use crate::bip375::types;
use crate::bip375::utils;
use crate::collected;
use crate::hash;
use crate::psbt;
use crate::roles::aggregation;
use crate::roles::sp_outputs;
use crate::secp;
use crate::sending;
use crate::bip375::error::{Error, FieldDataError, PsbtStateError};
use crate::bip375::input_key::{find_input_key, find_input_keys};
use crate::crypto::error::{CryptoError, SecpError};
use crate::psbt::{Input, Output, Psbt};
use crate::roles::aggregation::compute_secret;
use crate::secp::PublicKey;
use crate::sending::{Payment, Recipient};

verus! {

/// The secret for a scan key: the global share, which has the hash over the inputs
/// applied, or else what the shares of the inputs add up to.
pub open spec fn output_secret(psbt: Psbt, scan_key: Seq<u8>) -> Result<Seq<u8>, Error> {
    if psbt.global.sp_ecdh_shares@.contains_key(scan_key) {
        Ok(psbt.global.sp_ecdh_shares@[scan_key]@)
    } else if !shares_complete(psbt.inputs@, scan_key) {
        Err(
            Error::InvalidPsbtState(
                PsbtStateError::MissingShare { scan_key: secp::key_of(scan_key) },
            ),
        )
    } else {
        match secp::sum_points(input_key::input_keys(psbt.inputs@)->Ok_0) {
            None => Err(error::no_sum()),
            Some(key_sum) => aggregation::secret_for(psbt.inputs@, key_sum, scan_key),
        }
    }
}

/// The keys of the inputs that take part are known, there are some, and each such input has a
/// share for the scan key.
pub open spec fn shares_complete(inputs: Seq<Input>, scan_key: Seq<u8>) -> bool {
    &&& input_key::input_keys(inputs) matches Ok(points)
    &&& points.len() > 0
    &&& aggregation::all_share(inputs, scan_key)
}

/// Whether each input that takes part has a share for a scan key.
pub(crate) fn check_all_share(inputs: &Vec<Input>, scan_key: &PublicKey) -> (res: bool)
    ensures
        res == aggregation::all_share(inputs@, scan_key@),
{
    let mut i: usize = 0;
    while i < inputs.len()
        invariant
            i <= inputs@.len(),
            aggregation::all_share(inputs@.take(i as int), scan_key@),
        decreases inputs@.len() - i,
    {
        let input = &inputs[i];
        if let Ok(Some(_)) = find_input_key(input, None) {
            if input.sp_ecdh_shares.get(scan_key).is_none() {
                assert(!aggregation::all_share(inputs@, scan_key@)) by {
                    assert(input_key::input_point(inputs@[i as int]) is Some);
                }
                return false;
            }
        }
        proof {
            assert forall|j: int|
                0 <= j < i + 1 && input_key::input_point(
                    #[trigger] inputs@.take(i + 1)[j],
                ) is Some implies inputs@.take(i + 1)[j].sp_ecdh_shares@.contains_key(
                scan_key@,
            ) by {
                if j < i {
                    assert(inputs@.take(i as int)[j] == inputs@[j]);
                }
            }
        }
        i += 1;
    }
    assert(inputs@.take(i as int) =~= inputs@);
    true
}

/// Finds the secret for a scan key.
pub(crate) fn find_output_secret(psbt: &Psbt, scan_key: &PublicKey) -> (res: Result<
    PublicKey,
    Error,
>)
    ensures
        match res {
            Ok(secret) => output_secret(*psbt, scan_key@) == Ok::<_, Error>(secret@),
            Err(error) => output_secret(*psbt, scan_key@) == Err::<Seq<u8>, _>(error),
        },
{
    if let Some(share) = psbt.global.sp_ecdh_shares.get(scan_key) {
        return Ok(*share);
    }
    let missing = Error::InvalidPsbtState(PsbtStateError::MissingShare { scan_key: *scan_key });
    proof {
        secp::lemma_key_of(*scan_key);
    }
    let points = match find_input_keys(&psbt.inputs) {
        Ok(points) => points,
        Err(_) => return Err(missing),
    };
    if points.len() == 0 || !check_all_share(&psbt.inputs, scan_key) {
        return Err(missing);
    }
    proof {
        if psbt.inputs@.len() == 0 {
            collected::lemma_values(input_key::input_key_items(psbt.inputs@));
        }
    }
    let Some(key_sum) = PublicKey::combine_keys(&points) else {
        return Err(Error::Crypto(CryptoError::Secp256k1(SecpError::InvalidPublicKeySum)));
    };
    compute_secret(&psbt.inputs, &key_sum, scan_key)
}

/// The payment that an output makes; `None` for an output that is no silent payment.
pub open spec fn output_payment(psbt: Psbt, i: int) -> Result<Option<Payment>, Error> {
    match psbt.outputs@[i].sp_v0_info {
        None => Ok(None),
        Some(info) => if info@.len() != 66 {
            Err(
                Error::InvalidFieldData(
                    FieldDataError::SpInfoLength {
                        output_index: None,
                        length: info@.len() as usize,
                    },
                ),
            )
        } else if !secp::valid_point(types::first_key(info@)) || !secp::valid_point(
            types::second_key(info@),
        ) {
            Err(error::malformed_key())
        } else {
            match output_secret(psbt, types::first_key(info@)) {
                Ok(secret) => Ok(Some(Payment { info: info@, secret })),
                Err(error) => Err(error),
            }
        },
    }
}

/// What `output_payment` gives for each output.
pub open spec fn output_payments(psbt: Psbt) -> Seq<Result<Option<Payment>, Error>> {
    Seq::new(psbt.outputs@.len(), |i: int| output_payment(psbt, i))
}

/// The addresses of the silent payment outputs, with their keys.
pub open spec fn derived_keys(psbt: Psbt) -> Result<Seq<(Seq<u8>, Seq<u8>)>, Error> {
    match collected::collected(output_payments(psbt)) {
        Ok(payments) => sending::recipient_keys(payments),
        Err(error) => Err(error),
    }
}

/// Finds the payment that an output makes.
pub(crate) fn find_payment(psbt: &Psbt, i: usize) -> (res: Result<Option<Recipient>, Error>)
    requires
        i < psbt.outputs@.len(),
    ensures
        match res {
            Ok(Some(recipient)) => output_payment(*psbt, i as int) == Ok::<_, Error>(
                Some(recipient@),
            ),
            Ok(None) => output_payment(*psbt, i as int) == Ok::<Option<Payment>, Error>(None),
            Err(error) => output_payment(*psbt, i as int) == Err::<Option<Payment>, _>(error),
        },
{
    let Some(info) = &psbt.outputs[i].sp_v0_info else {
        return Ok(None);
    };
    if info.len() != 66 {
        return Err(
            Error::InvalidFieldData(
                FieldDataError::SpInfoLength { output_index: None, length: info.len() },
            ),
        );
    }
    let Some(scan_key) = PublicKey::read_at(info.as_slice(), 0) else {
        return Err(Error::Crypto(CryptoError::Secp256k1(SecpError::InvalidPublicKey)));
    };
    let Some(spend_key) = PublicKey::read_at(info.as_slice(), 33) else {
        return Err(Error::Crypto(CryptoError::Secp256k1(SecpError::InvalidPublicKey)));
    };
    let secret = match find_output_secret(psbt, &scan_key) {
        Ok(secret) => secret,
        Err(error) => return Err(error),
    };
    let recipient = Recipient { scan_key, spend_key, secret };
    assert(recipient@.info =~= info@);
    Ok(Some(recipient))
}

/// Finds the payments that the outputs make.
pub(crate) fn find_payments(psbt: &Psbt) -> (res: Result<Vec<Recipient>, Error>)
    ensures
        match res {
            Ok(recipients) => collected::collected(output_payments(*psbt)) == Ok::<_, Error>(
                sending::payments_of(recipients@),
            ) && recipients@.len() <= psbt.outputs@.len(),
            Err(error) => collected::collected(output_payments(*psbt)) == Err::<
                Seq<Payment>,
                _,
            >(error),
        },
{
    let ghost items = output_payments(*psbt);
    let mut recipients: Vec<Recipient> = Vec::new();
    let mut i: usize = 0;
    assert(items.take(0) =~= Seq::empty());
    assert(sending::payments_of(recipients@) =~= Seq::empty());
    while i < psbt.outputs.len()
        invariant
            i <= psbt.outputs@.len(),
            items == output_payments(*psbt),
            recipients@.len() <= i,
            collected::collected(items.take(i as int)) == Ok::<_, Error>(
                sending::payments_of(recipients@),
            ),
        decreases psbt.outputs@.len() - i,
    {
        proof {
            collected::lemma_step(items, i as int);
            if collected::collected(items.take(i + 1)) is Err {
                collected::lemma_failure(items, i + 1);
            }
        }
        match find_payment(psbt, i) {
            Err(error) => return Err(error),
            Ok(None) => {},
            Ok(Some(recipient)) => {
                let ghost before = sending::payments_of(recipients@);
                recipients.push(recipient);
                assert(sending::payments_of(recipients@) =~= before.push(recipient@));
            },
        }
        i += 1;
    }
    assert(items.take(i as int) =~= items);
    Ok(recipients)
}

/// The secret for a scan key is its global share, as it is. Without one, it is what the shares of
/// the inputs that take part are combined to, times the hash over the inputs, for which the keys of
/// these inputs are combined.
///
/// The result is the sum of the shares and the sum of the keys.
pub proof fn law_output_secret(psbt: Psbt, scan_key: Seq<u8>) -> (res: (Seq<u8>, Seq<u8>))
    ensures
        ({
            let (sum, key_sum) = res;
            let global = psbt.global.sp_ecdh_shares@;
            let takers = psbt.inputs@.filter(
                |input: Input| utils::eligibility(input) == Ok::<_, Error>(true),
            );
            &&& global.contains_key(scan_key) ==> output_secret(psbt, scan_key) == Ok::<_, Error>(
                global[scan_key]@,
            )
            &&& !global.contains_key(scan_key) ==> (output_secret(psbt, scan_key) matches Ok(
                secret,
            ) ==> {
                &&& takers.len() > 0
                &&& secp::combined_points(
                    takers.map_values(|input: Input| input.sp_ecdh_shares@[scan_key]@),
                ) == Some(sum)
                &&& secp::combined_points(
                    takers.map_values(|input: Input| input_key::input_point(input)->Some_0),
                ) == Some(key_sum)
                &&& secp::point_times(
                    sum,
                    hash::input_digest(psbt::outpoints(psbt.inputs@), key_sum),
                ) == Some(secret)
            })
        }),
{
    input_key::law_input_keys(psbt.inputs@);
    let key_sum = secp::sum_points(input_key::input_keys(psbt.inputs@)->Ok_0)->Some_0;
    let sum = aggregation::law_secret_for(psbt.inputs@, key_sum, scan_key);
    if input_key::input_keys(psbt.inputs@) is Ok {
        aggregation::lemma_same_takers(psbt.inputs@);
    }
    (sum, key_sum)
}

/// Without a global share, the secret for a scan key is missing exactly where the keys of the inputs
/// that take part are not all known, no input takes part, or one that does has no share for the
/// scan key.
pub proof fn law_missing_share(psbt: Psbt, scan_key: PublicKey)
    requires
        !psbt.global.sp_ecdh_shares@.contains_key(scan_key@),
    ensures
        ({
            let known = forall|i: int|
                0 <= i < psbt.inputs@.len() ==> input_key::input_key(
                    #[trigger] psbt.inputs@[i],
                    None,
                ) is Ok;
            let takers = psbt.inputs@.filter(
                |input: Input| utils::eligibility(input) == Ok::<_, Error>(true),
            );
            let shared = forall|i: int|
                0 <= i < psbt.inputs@.len() && input_key::input_point(
                    #[trigger] psbt.inputs@[i],
                ) is Some ==> psbt.inputs@[i].sp_ecdh_shares@.contains_key(scan_key@);
            !(known && takers.len() > 0 && shared) <==> output_secret(psbt, scan_key@) == Err::<
                Seq<u8>,
                _,
            >(Error::InvalidPsbtState(PsbtStateError::MissingShare { scan_key }))
        }),
{
    input_key::law_input_keys(psbt.inputs@);
    secp::lemma_key_of(scan_key);
}

/// Where the keys of the silent payment outputs can be derived, each such output has an address of
/// two points, and its key comes from the secret of its scan key, its spend key and the number of
/// earlier outputs to the scan key. The key stands in the list of its address behind those of the
/// earlier outputs with the same two keys.
///
/// The result is the secret and the key.
pub proof fn law_derived_output(psbt: Psbt, list: Seq<(Seq<u8>, Seq<u8>)>, i: int) -> (res: (
    Seq<u8>,
    Seq<u8>,
))
    requires
        derived_keys(psbt) == Ok::<_, Error>(list),
        0 <= i < psbt.outputs@.len(),
        psbt.outputs@[i].sp_v0_info is Some,
    ensures
        ({
            let (secret, key) = res;
            let info = psbt.outputs@[i].sp_v0_info->Some_0@;
            let scan_key = info.subrange(0, 33);
            let k = psbt.outputs@.take(i).filter(
                |output: Output|
                    output.sp_v0_info is Some && output.sp_v0_info->Some_0@.subrange(0, 33)
                        == scan_key,
            ).len();
            let place = psbt.outputs@.take(i).filter(
                |output: Output| output.sp_v0_info is Some && output.sp_v0_info->Some_0@ == info,
            ).len();
            &&& info.len() == 66
            &&& secp::valid_point(scan_key)
            &&& secp::valid_point(info.subrange(33, 66))
            &&& output_secret(psbt, scan_key) == Ok::<_, Error>(secret)
            &&& sending::output_key(secret, info.subrange(33, 66), k) == Some(key)
            &&& sending::grouped(list).contains_key(seq![0u8] + info)
            &&& place < sending::grouped(list)[seq![0u8] + info].len()
            &&& sending::grouped(list)[seq![0u8] + info][place as int] == key
        }),
{
    let outputs = psbt.outputs@;
    let info = outputs[i].sp_v0_info->Some_0@;
    let scan_key = info.subrange(0, 33);
    let items = output_payments(psbt);
    let payments = collected::collected(items)->Ok_0;
    let pays = |output: Output|
        output.sp_v0_info is Some && output.sp_v0_info->Some_0@.subrange(0, 33) == scan_key;
    collected::lemma_values(items);
    assert forall|j: int| 0 <= j < items.len() implies pays(outputs[j]) == ((
    #[trigger] items[j]) matches Ok(Some(payment)) && payment.info.subrange(0, 33) == scan_key)
        && sp_outputs::makes_payment(items[j]) == (outputs[j].sp_v0_info is Some) by {
        assert(items[j] == output_payment(psbt, j));
        assert(items[j] is Ok);
    }
    assert(sp_outputs::describes(items, outputs)) by {
        assert forall|j: int| 0 <= j < items.len() implies ((#[trigger] items[j]) matches Ok(
            Some(payment),
        ) ==> sp_outputs::output_address(outputs[j]) == Some(
            sending::address_bytes(payment.info),
        )) by {
            assert(items[j] == output_payment(psbt, j));
        }
    }
    sp_outputs::law_keys_fit_outputs(items, outputs, payments, list);
    sp_outputs::lemma_counter_among_outputs(items, outputs, payments, i, scan_key, pays);
    sp_outputs::law_outputs_to_same_keys(outputs, i, info);
    assert(items[i] == output_payment(psbt, i));
    assert(items[i] is Ok);
    assert(sp_outputs::makes_payment(items[i]));
    assert(items[i]->Ok_0 is Some);
    let r = collected::rank(items, i) as int;
    assert(payments[r].info == info);
    let place = sp_outputs::outputs_to(outputs, i, seq![0u8] + info) as int;
    (payments[r].secret, sending::grouped(list)[seq![0u8] + info][place])
}

/// The keys can be derived where each silent payment output has an address of two points and a
/// secret, and the keys of these payments can be derived. What fails otherwise is the first output
/// that fails, for the length of its address, its keys or its secret.
pub proof fn law_output_payment(psbt: Psbt, i: int)
    requires
        0 <= i < psbt.outputs@.len(),
    ensures
        psbt.outputs@[i].sp_v0_info is None ==> output_payments(psbt)[i] == Ok::<
            Option<Payment>,
            Error,
        >(None),
        psbt.outputs@[i].sp_v0_info matches Some(info) ==> output_payments(psbt)[i] == (
        if info@.len() != 66 {
            Err(
                Error::InvalidFieldData(
                    FieldDataError::SpInfoLength {
                        output_index: None,
                        length: info@.len() as usize,
                    },
                ),
            )
        } else if !(secp::valid_point(info@.subrange(0, 33)) && secp::valid_point(
            info@.subrange(33, 66),
        )) {
            Err(Error::Crypto(CryptoError::Secp256k1(SecpError::InvalidPublicKey)))
        } else {
            match output_secret(psbt, info@.subrange(0, 33)) {
                Err(error) => Err(error),
                Ok(secret) => Ok(Some(Payment { info: info@, secret })),
            }
        }),
        output_payments(psbt).len() == psbt.outputs@.len(),
{
}

} // verus!
