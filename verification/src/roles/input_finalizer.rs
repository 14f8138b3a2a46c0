//! The derivation of the silent payment scripts from the shares of a transaction (BIP-352).
//!
//! The shared secret of a scan key is the sum of its shares, times the hash over the inputs.

use vstd::prelude::*;
use crate::address_map;
use crate::bip375::error;
use crate::bip375::extensions;
use crate::bip375::input_key;
use crate::bip375::secrets;
use crate::bip375::shares;
use crate::bip375::types;
use crate::bip375::utils;
use crate::collected;
use crate::hash;
use crate::psbt;
use crate::roles::aggregation;
use crate::roles::payments;
use crate::roles::sp_outputs;
use crate::script;
use crate::secp;
use crate::sending;
use crate::address_map::AddressMap;
use crate::bip375::error::{Error, OtherError};
use crate::bip375::extensions::get_output_sp_info;
use crate::bip375::shares::{
    aggregate_ecdh_shares, compute_sp_shared_secrets, AggregatedShare, AggregatedShares,
};
use crate::bip375::utils::is_input_eligible;
use crate::crypto::error::{CryptoError, SecpError};
use crate::key_map::KeyMap;
use crate::psbt::{Global, Input, Output, Psbt};
use crate::roles::sp_outputs::{count_outputs_to, pays_to};
use crate::script::new_p2tr_tweaked;
use crate::secp::PublicKey;
use crate::sending::{generate_recipient_pubkeys, Network, Payment, Recipient};

verus! {

/// How many of the inputs take part.
pub open spec fn eligible_count(inputs: Seq<Input>) -> nat
    decreases inputs.len(),
{
    if inputs.len() == 0 {
        0
    } else if utils::eligibility(inputs.last()) == Ok::<_, Error>(true) {
        eligible_count(inputs.drop_last()) + 1
    } else {
        eligible_count(inputs.drop_last())
    }
}

/// Counts the inputs that take part.
fn count_eligible(inputs: &Vec<Input>) -> (res: usize)
    ensures
        res == eligible_count(inputs@),
{
    let mut count: usize = 0;
    let mut i: usize = 0;
    while i < inputs.len()
        invariant
            i <= inputs@.len(),
            count == eligible_count(inputs@.take(i as int)),
            count <= i,
        decreases inputs@.len() - i,
    {
        assert(inputs@.take(i + 1).drop_last() =~= inputs@.take(i as int));
        if let Ok(true) = is_input_eligible(&inputs[i]) {
            count += 1;
        }
        i += 1;
    }
    assert(inputs@.take(i as int) =~= inputs@);
    count
}

/// The shares of the inputs for a scan key are not as many as the inputs that take part.
pub open spec fn uncovered(psbt: Psbt, scan_key: Seq<u8>) -> bool {
    shares::total(psbt, scan_key) matches Some(total) && !total.is_global && total.num_inputs
        != eligible_count(psbt.inputs@)
}

/// An output pays to a scan key.
pub open spec fn pays_scan_key(output: Output, scan_key: Seq<u8>) -> bool {
    extensions::sp_info(output) matches Some(info) && types::first_key(info) == scan_key
}

/// The position of the first output that pays to a scan key, or 0 where none does.
pub open spec fn first_payment(outputs: Seq<Output>, scan_key: Seq<u8>, i: int) -> bool {
    ||| 0 <= i < outputs.len() && pays_scan_key(outputs[i], scan_key) && forall|j: int|
        0 <= j < i ==> !pays_scan_key(#[trigger] outputs[j], scan_key)
    ||| i == 0 && forall|j: int|
        0 <= j < outputs.len() ==> !pays_scan_key(#[trigger] outputs[j], scan_key)
}

fn find_first_payment(psbt: &Psbt, scan_key: &PublicKey) -> (res: usize)
    ensures
        first_payment(psbt.outputs@, scan_key@, res as int),
{
    let mut i: usize = 0;
    while i < psbt.outputs.len()
        invariant
            i <= psbt.outputs@.len(),
            forall|j: int|
                0 <= j < i ==> !pays_scan_key(#[trigger] psbt.outputs@[j], scan_key@),
        decreases psbt.outputs@.len() - i,
    {
        if let Some((key, spend_key)) = get_output_sp_info(psbt, i) {
            proof {
                secp::lemma_key_len(key);
                assert(types::first_key(types::key_pair(key@, spend_key@)) =~= key@);
            }
            if key.same(scan_key) {
                return i;
            }
        }
        i += 1;
    }
    0
}

/// Looks for a scan key whose shares do not cover the inputs that take part.
fn find_uncovered(psbt: &Psbt, aggregated: &AggregatedShares) -> (res: Option<PublicKey>)
    requires
        shares::holds_totals(aggregated@, *psbt),
    ensures
        match res {
            Some(scan_key) => uncovered(*psbt, scan_key@),
            None => forall|scan_key: Seq<u8>| !uncovered(*psbt, scan_key),
        },
{
    let eligible = count_eligible(&psbt.inputs);
    let entries = aggregated.iter();
    let ghost keys = entries@.map_values(
        |entry: (&PublicKey, &AggregatedShare)| entry.0@,
    );
    let mut i: usize = 0;
    while i < entries.len()
        invariant
            i <= entries@.len(),
            eligible == eligible_count(psbt.inputs@),
            shares::holds_totals(aggregated@, *psbt),
            keys == entries@.map_values(
                |entry: (&PublicKey, &AggregatedShare)| entry.0@,
            ),
            shares::walks_keys(keys, aggregated@),
            forall|j: int|
                0 <= j < entries@.len() ==> *(#[trigger] entries@[j]).1
                    == aggregated@[entries@[j].0@],
            forall|j: int| 0 <= j < i ==> !uncovered(*psbt, #[trigger] keys[j]),
        decreases entries@.len() - i,
    {
        let (scan_key, share) = entries[i];
        assert(keys[i as int] == scan_key@);
        assert(keys.contains(scan_key@));
        assert(aggregated@.contains_key(scan_key@));
        if !share.is_global && share.num_inputs != eligible {
            return Some(*scan_key);
        }
        i += 1;
    }
    proof {
        assert forall|scan_key: Seq<u8>| !uncovered(*psbt, scan_key) by {
            if shares::total(*psbt, scan_key) is Some {
                assert(aggregated@.contains_key(scan_key));
                assert(keys.contains(scan_key));
                let j = choose|j: int| 0 <= j < keys.len() && keys[j] == scan_key;
                assert(!uncovered(*psbt, keys[j]));
            }
        }
    }
    None
}

/// The payment that an output makes, given the shared secrets.
pub open spec fn secret_payment(
    outputs: Seq<Output>,
    i: int,
    secrets: Map<Seq<u8>, Seq<u8>>,
) -> Result<Option<Payment>, Error> {
    match extensions::sp_info(outputs[i]) {
        None => Ok(None),
        Some(info) => if secrets.contains_key(types::first_key(info)) {
            Ok(Some(Payment { info, secret: secrets[types::first_key(info)] }))
        } else {
            Err(
                Error::Other(
                    OtherError::MissingSharedSecret {
                        scan_key: secp::key_of(types::first_key(info)),
                    },
                ),
            )
        },
    }
}

/// What `secret_payment` gives for each output.
pub open spec fn secret_payments(outputs: Seq<Output>, secrets: Map<Seq<u8>, Seq<u8>>) -> Seq<
    Result<Option<Payment>, Error>,
> {
    Seq::new(outputs.len(), |i: int| secret_payment(outputs, i, secrets))
}

/// The shared secrets of a transaction, by scan key.
pub open spec fn shared_secrets(psbt: Psbt, key_sum: Seq<u8>) -> Map<Seq<u8>, Seq<u8>> {
    Map::new(
        |scan_key: Seq<u8>| shares::total(psbt, scan_key) is Some,
        |scan_key: Seq<u8>| total_secret(psbt, key_sum, scan_key)->Some_0,
    )
}

/// The shared secret of a scan key: what its shares add up to, times the hash over the inputs.
pub open spec fn total_secret(psbt: Psbt, key_sum: Seq<u8>, scan_key: Seq<u8>) -> Option<Seq<u8>> {
    secrets::hash_applied(
        shares::total(psbt, scan_key)->Some_0.share,
        psbt::outpoints(psbt.inputs@),
        key_sum,
    )
}

/// The hash over the inputs cannot be applied to what some shares add up to.
pub open spec fn hash_fails(psbt: Psbt, key_sum: Seq<u8>) -> bool {
    exists|scan_key: Seq<u8>| #[trigger]
        shares::total(psbt, scan_key) is Some && total_secret(psbt, key_sum, scan_key) is None
}

/// The addresses of the silent payment outputs with their keys, where the shares cover the inputs.
pub open spec fn final_keys(psbt: Psbt) -> Result<Seq<(Seq<u8>, Seq<u8>)>, Error> {
    match shares::eligible_key_sum(psbt.inputs@) {
        Err(error) => Err(error),
        Ok(key_sum) => if hash_fails(psbt, key_sum) {
            Err(
                Error::Other(
                    OtherError::InputHash(
                        secrets::hash_failure(psbt::outpoints(psbt.inputs@), key_sum),
                    ),
                ),
            )
        } else {
            match collected::collected(
                secret_payments(psbt.outputs@, shared_secrets(psbt, key_sum)),
            ) {
                Err(error) => Err(error),
                Ok(payments) => sending::recipient_keys(payments),
            }
        },
    }
}

/// Secrets by the encodings of the points.
pub open spec fn secret_bytes(secrets: Map<Seq<u8>, PublicKey>) -> Map<Seq<u8>, Seq<u8>> {
    Map::new(
        |scan_key: Seq<u8>| secrets.contains_key(scan_key),
        |scan_key: Seq<u8>| secrets[scan_key]@,
    )
}

/// Finds the payments that the outputs make.
fn find_secret_payments(psbt: &Psbt, secrets: &KeyMap<PublicKey>) -> (res: Result<
    Vec<Recipient>,
    Error,
>)
    ensures
        match res {
            Ok(recipients) => collected::collected(
                secret_payments(psbt.outputs@, secret_bytes(secrets@)),
            ) == Ok::<_, Error>(sending::payments_of(recipients@)) && recipients@.len()
                <= psbt.outputs@.len(),
            Err(error) => collected::collected(
                secret_payments(psbt.outputs@, secret_bytes(secrets@)),
            ) == Err::<Seq<Payment>, _>(error),
        },
{
    let ghost items = secret_payments(psbt.outputs@, secret_bytes(secrets@));
    let mut recipients: Vec<Recipient> = Vec::new();
    let mut i: usize = 0;
    assert(items.take(0) =~= Seq::empty());
    assert(sending::payments_of(recipients@) =~= Seq::empty());
    while i < psbt.outputs.len()
        invariant
            i <= psbt.outputs@.len(),
            items == secret_payments(psbt.outputs@, secret_bytes(secrets@)),
            recipients@.len() <= i,
            collected::collected(items.take(i as int)) == Ok::<_, Error>(
                sending::payments_of(recipients@),
            ),
        decreases psbt.outputs@.len() - i,
    {
        proof {
            collected::lemma_step(items, i as int);
            assert(items[i as int] == secret_payment(
                psbt.outputs@,
                i as int,
                secret_bytes(secrets@),
            ));
            if collected::collected(items.take(i + 1)) is Err {
                collected::lemma_failure(items, i + 1);
            }
        }
        if let Some((scan_key, spend_key)) = get_output_sp_info(psbt, i) {
            proof {
                secp::lemma_key_len(scan_key);
                assert(types::first_key(types::key_pair(scan_key@, spend_key@))
                    =~= scan_key@);
            }
            let Some(secret) = secrets.get(&scan_key) else {
                proof {
                    secp::lemma_key_of(scan_key);
                }
                return Err(Error::Other(OtherError::MissingSharedSecret { scan_key }));
            };
            let recipient = Recipient { scan_key, spend_key, secret: *secret };
            let ghost before = sending::payments_of(recipients@);
            recipients.push(recipient);
            assert(sending::payments_of(recipients@) =~= before.push(recipient@));
        }
        i += 1;
    }
    assert(items.take(i as int) =~= items);
    Ok(recipients)
}

/// Derives the keys of the silent payment outputs, given what the shares add up to.
fn derive_final_keys(psbt: &Psbt, aggregated: &AggregatedShares) -> (res: Result<
    AddressMap<[u8; 32]>,
    Error,
>)
    requires
        shares::holds_totals(aggregated@, *psbt),
        psbt.outputs@.len() <= u32::MAX,
    ensures
        match final_keys(*psbt) {
            Ok(list) => res matches Ok(keys) && sending::key_lists(keys@) == sending::grouped(
                list,
            ),
            Err(error) => res == Err::<AddressMap<[u8; 32]>, _>(error),
        },
{
    let secrets = match compute_sp_shared_secrets(psbt, aggregated) {
        Ok(secrets) => secrets,
        Err(error) => {
            proof {
                if let Ok(key_sum) = shares::eligible_key_sum(psbt.inputs@) {
                    let scan_key = choose|scan_key: Seq<u8>| #[trigger]
                        aggregated@.contains_key(scan_key) && shares::share_secret(
                            *psbt,
                            key_sum,
                            aggregated@[scan_key],
                        ) is None;
                    assert(shares::is_total(
                        aggregated@[scan_key],
                        shares::total(*psbt, scan_key),
                    ));
                    assert(shares::total(*psbt, scan_key) is Some);
                }
            }
            return Err(error);
        },
    };
    proof {
        let key_sum = shares::eligible_key_sum(psbt.inputs@)->Ok_0;
        let expected = shared_secrets(*psbt, key_sum);
        assert forall|scan_key: Seq<u8>| #[trigger]
            shares::total(*psbt, scan_key) is Some implies total_secret(
            *psbt,
            key_sum,
            scan_key,
        ) == Some(secrets@[scan_key]@) && secrets@.contains_key(scan_key) by {
            assert(aggregated@.contains_key(scan_key));
            assert(secrets@.contains_key(scan_key));
            assert(shares::is_total(aggregated@[scan_key], shares::total(*psbt, scan_key)));
        }
        assert forall|scan_key: Seq<u8>| #[trigger]
            secrets@.contains_key(scan_key) implies shares::total(*psbt, scan_key) is Some by {
            assert(aggregated@.contains_key(scan_key));
        }
        assert(secret_bytes(secrets@) =~= expected);
    }
    match find_secret_payments(psbt, &secrets) {
        Ok(recipients) => generate_recipient_pubkeys(&recipients),
        Err(error) => Err(error),
    }
}

/// An output that makes a payment pays to the address.
pub open spec fn is_target(outputs: Seq<Output>, address: Seq<u8>) -> bool {
    exists|i: int|
        0 <= i < outputs.len() && extensions::sp_info(#[trigger] outputs[i]) is Some
            && sp_outputs::output_address(outputs[i]) == Some(address)
}

/// The addresses with keys are those of the outputs that make a payment.
pub open spec fn addresses_match(
    outputs: Seq<Output>,
    lists: Map<Seq<u8>, Seq<Seq<u8>>>,
) -> bool {
    forall|address: Seq<u8>| #[trigger] lists.contains_key(address) <==> is_target(outputs, address)
}

/// Each address has as many keys as outputs.
pub open spec fn counts_match(outputs: Seq<Output>, lists: Map<Seq<u8>, Seq<Seq<u8>>>) -> bool {
    forall|address: Seq<u8>| #[trigger]
        lists.contains_key(address) ==> lists[address].len() == sp_outputs::outputs_to(
            outputs,
            outputs.len() as int,
            address,
        )
}

/// The outputs that make a payment have no script yet.
pub open spec fn scripts_open(outputs: Seq<Output>) -> bool {
    forall|i: int|
        0 <= i < outputs.len() && extensions::sp_info(#[trigger] outputs[i]) is Some
            ==> outputs[i].script_pubkey@.len() == 0
}

/// An output that had no script pays to its key: the one of its address behind those of the
/// earlier outputs to the address.
pub open spec fn pays_own_key(
    before: Seq<Output>,
    after: Output,
    i: int,
    lists: Map<Seq<u8>, Seq<Seq<u8>>>,
) -> bool {
    let address = sp_outputs::output_address(before[i])->Some_0;
    let place = sp_outputs::outputs_to(before, i, address) as int;
    &&& extensions::sp_info(before[i]) is Some
    &&& before[i].script_pubkey@.len() == 0
    &&& after == (Output { script_pubkey: after.script_pubkey, ..before[i] })
    &&& place < lists[address].len()
    &&& after.script_pubkey@ == script::p2tr_script(lists[address][place])
}

/// The outputs that make a payment have taproot scripts.
pub open spec fn taproot_paid(before: Seq<Output>, after: Seq<Output>) -> bool {
    forall|i: int|
        0 <= i < before.len() && extensions::sp_info(before[i]) is Some ==> script::p2tr(
            (#[trigger] after[i]).script_pubkey@,
        )
}

/// The outputs that make a payment pay to their keys, and the others are as before.
pub open spec fn all_paid(
    before: Seq<Output>,
    after: Seq<Output>,
    lists: Map<Seq<u8>, Seq<Seq<u8>>>,
) -> bool {
    &&& after.len() == before.len()
    &&& forall|i: int|
        0 <= i < before.len() ==> if extensions::sp_info(before[i]) is Some {
            pays_own_key(before, #[trigger] after[i], i, lists)
        } else {
            after[i] == before[i]
        }
}

/// Each output is as before, or pays to its key.
pub open spec fn partly_paid(
    before: Seq<Output>,
    after: Seq<Output>,
    lists: Map<Seq<u8>, Seq<Seq<u8>>>,
) -> bool {
    &&& after.len() == before.len()
    &&& forall|i: int|
        0 <= i < before.len() ==> (#[trigger] after[i]) == before[i] || pays_own_key(
            before,
            after[i],
            i,
            lists,
        )
}

/// Whether the addresses with keys are those of the outputs that make a payment.
fn check_addresses(psbt: &Psbt, keys: &AddressMap<[u8; 32]>) -> (res: bool)
    ensures
        res == addresses_match(psbt.outputs@, sending::key_lists(keys@)),
{
    let ghost lists = sending::key_lists(keys@);
    let ghost outputs = psbt.outputs@;
    let len = keys.len();
    let mut i: usize = 0;
    while i < len
        invariant
            i <= len,
            len == keys.addresses().len(),
            outputs == psbt.outputs@,
            lists == sending::key_lists(keys@),
            forall|j: int| 0 <= j < i ==> is_target(outputs, #[trigger] keys.addresses()[j]),
        decreases len - i,
    {
        let (address, _) = keys.at(i);
        let mut found = false;
        let mut j: usize = 0;
        while j < psbt.outputs.len() && !found
            invariant
                j <= psbt.outputs@.len(),
                outputs == psbt.outputs@,
                found ==> is_target(outputs, address@),
                !found ==> forall|k: int|
                    0 <= k < j && extensions::sp_info(#[trigger] outputs[k]) is Some
                        ==> sp_outputs::output_address(outputs[k]) != Some(address@),
            decreases psbt.outputs@.len() - j,
        {
            if get_output_sp_info(psbt, j).is_some() && pays_to(&psbt.outputs[j], address) {
                assert(extensions::sp_info(outputs[j as int]) is Some);
                found = true;
            }
            j += 1;
        }
        if !found {
            assert(lists.contains_key(address@));
            assert(!is_target(outputs, address@));
            return false;
        }
        i += 1;
    }
    assert forall|address: Seq<u8>| #[trigger] lists.contains_key(address) implies is_target(
        outputs,
        address,
    ) by {
        assert(keys.addresses().contains(address));
        let j = choose|j: int| 0 <= j < keys.addresses().len() && keys.addresses()[j] == address;
        assert(is_target(outputs, keys.addresses()[j]));
    }
    let mut j: usize = 0;
    while j < psbt.outputs.len()
        invariant
            j <= psbt.outputs@.len(),
            outputs == psbt.outputs@,
            lists == sending::key_lists(keys@),
            forall|k: int|
                0 <= k < j && extensions::sp_info(#[trigger] outputs[k]) is Some
                    ==> lists.contains_key(sp_outputs::output_address(outputs[k])->Some_0),
        decreases psbt.outputs@.len() - j,
    {
        if let Some((scan_key, spend_key)) = get_output_sp_info(psbt, j) {
            let recipient = Recipient { scan_key, spend_key, secret: scan_key };
            let address = recipient.address();
            if keys.get(&address).is_none() {
                assert(extensions::sp_info(outputs[j as int]) is Some);
                assert(is_target(outputs, address@));
                assert(!lists.contains_key(address@));
                return false;
            }
        }
        j += 1;
    }
    true
}

proof fn lemma_same_addresses(before: Seq<Output>, after: Seq<Output>, n: int, address: Seq<u8>)
    requires
        0 <= n <= before.len() == after.len(),
        forall|i: int|
            0 <= i < before.len() ==> (#[trigger] after[i]).sp_v0_info == before[i].sp_v0_info,
    ensures
        sp_outputs::outputs_to(after, n, address) == sp_outputs::outputs_to(before, n, address),
    decreases n,
{
    if n > 0 {
        lemma_same_addresses(before, after, n - 1, address);
        assert(after[n - 1].sp_v0_info == before[n - 1].sp_v0_info);
    }
}

/// The outputs to some of the addresses pay to their keys, and so do the first `n` outputs to the
/// next address. The others are as before.
spec fn paid_so_far(
    before: Seq<Output>,
    after: Seq<Output>,
    lists: Map<Seq<u8>, Seq<Seq<u8>>>,
    addresses: Seq<Seq<u8>>,
    e: int,
    n: int,
) -> bool {
    &&& after.len() == before.len()
    &&& forall|i: int|
        0 <= i < before.len() ==> if reached(before[i], i, addresses, e, n) {
            pays_own_key(before, #[trigger] after[i], i, lists)
        } else {
            after[i] == before[i]
        }
}

/// The walk over the addresses has reached an output.
spec fn reached(output: Output, i: int, addresses: Seq<Seq<u8>>, e: int, n: int) -> bool {
    match sp_outputs::output_address(output) {
        Some(address) => (exists|k: int| 0 <= k < e && #[trigger] addresses[k] == address) || (e
            < addresses.len() && addresses[e] == address && i < n),
        None => false,
    }
}

/// An output with the address of an output that makes a payment makes one, too.
proof fn lemma_target_pays(outputs: Seq<Output>, address: Seq<u8>, i: int)
    requires
        is_target(outputs, address),
        0 <= i < outputs.len(),
        sp_outputs::output_address(outputs[i]) == Some(address),
    ensures
        extensions::sp_info(outputs[i]) is Some,
{
    let j = choose|j: int|
        0 <= j < outputs.len() && extensions::sp_info(#[trigger] outputs[j]) is Some
            && sp_outputs::output_address(outputs[j]) == Some(address);
    let info_i = outputs[i].sp_v0_info->Some_0@;
    let info_j = outputs[j].sp_v0_info->Some_0@;
    assert(info_i =~= sending::address_bytes(info_i).skip(1));
    assert(info_j =~= sending::address_bytes(info_j).skip(1));
    assert(sending::address_bytes(info_i).len() == sending::address_bytes(info_j).len());
}

/// Gives the outputs that make a payment the scripts that pay to their keys, and makes the
/// transaction one that may not be modified any more.
///
/// Where a script is there already or a number of keys does not fit, some outputs may have their
/// scripts.
pub fn apply_recipient_keys(psbt: &mut Psbt, keys: &AddressMap<[u8; 32]>) -> (res: Result<
    (),
    Error,
>)
    ensures
        final(psbt).inputs == old(psbt).inputs,
        !addresses_match(old(psbt).outputs@, sending::key_lists(keys@)) ==> res == Err::<(), _>(
            Error::Other(OtherError::AddressMismatch),
        ) && *final(psbt) == *old(psbt),
        addresses_match(old(psbt).outputs@, sending::key_lists(keys@)) ==> match res {
            Ok(_) => {
                &&& counts_match(old(psbt).outputs@, sending::key_lists(keys@))
                &&& scripts_open(old(psbt).outputs@)
                &&& final(psbt).global == (Global { tx_modifiable_flags: 0, ..old(psbt).global })
                &&& all_paid(
                    old(psbt).outputs@,
                    final(psbt).outputs@,
                    sending::key_lists(keys@),
                )
                &&& taproot_paid(old(psbt).outputs@, final(psbt).outputs@)
            },
            Err(error) => {
                &&& final(psbt).global == old(psbt).global
                &&& partly_paid(
                    old(psbt).outputs@,
                    final(psbt).outputs@,
                    sending::key_lists(keys@),
                )
                &&& {
                    ||| error == Error::Other(OtherError::KeyCountMismatch) && !counts_match(
                        old(psbt).outputs@,
                        sending::key_lists(keys@),
                    )
                    ||| exists|i: int|
                        0 <= i < old(psbt).outputs@.len() && error == Error::Other(
                            OtherError::OverwritingScript { output_index: i as usize },
                        ) && extensions::sp_info(#[trigger] old(psbt).outputs@[i]) is Some
                            && old(psbt).outputs@[i].script_pubkey@.len() > 0
                }
            },
        },
{
    let ghost lists = sending::key_lists(keys@);
    let ghost before = psbt.outputs@;
    if !check_addresses(psbt, keys) {
        return Err(Error::Other(OtherError::AddressMismatch));
    }
    let len = keys.len();
    let ghost addresses = keys.addresses();
    let mut e: usize = 0;
    while e < len
        invariant
            e <= len,
            len == addresses.len(),
            addresses == keys.addresses(),
            address_map::distinct(addresses),
            lists == sending::key_lists(keys@),
            before == old(psbt).outputs@,
            addresses_match(before, lists),
            psbt.inputs == old(psbt).inputs,
            psbt.global == old(psbt).global,
            paid_so_far(before, psbt.outputs@, lists, addresses, e as int, 0),
            forall|k: int|
                0 <= k < e ==> lists[#[trigger] addresses[k]].len() == sp_outputs::outputs_to(
                    before,
                    before.len() as int,
                    addresses[k],
                ),
        decreases len - e,
    {
        let (address, list) = keys.at(e);
        proof {
            assert(lists.contains_key(address@));
            assert(is_target(before, address@));
            lemma_same_addresses(before, psbt.outputs@, before.len() as int, address@);
        }
        if count_outputs_to(&psbt.outputs, psbt.outputs.len(), address) != list.len() {
            return Err(Error::Other(OtherError::KeyCountMismatch));
        }
        let mut n: usize = 0;
        let mut i: usize = 0;
        while i < psbt.outputs.len()
            invariant
                i <= before.len() == psbt.outputs@.len(),
                e < len == addresses.len(),
                addresses[e as int] == address@,
                address_map::distinct(addresses),
                lists == sending::key_lists(keys@),
                keys@.contains_key(address@),
                keys@[address@] == list@,
                list@.len() == sp_outputs::outputs_to(before, before.len() as int, address@),
                before == old(psbt).outputs@,
                is_target(before, address@),
                addresses_match(before, lists),
                psbt.inputs == old(psbt).inputs,
                psbt.global == old(psbt).global,
                n == sp_outputs::outputs_to(before, i as int, address@),
                n <= i,
                paid_so_far(before, psbt.outputs@, lists, addresses, e as int, i as int),
            decreases before.len() - i,
        {
            assert(psbt.outputs@[i as int].sp_v0_info == before[i as int].sp_v0_info);
            if pays_to(&psbt.outputs[i], address) {
                proof {
                    assert(!reached(before[i as int], i as int, addresses, e as int, i as int));
                    lemma_target_pays(before, address@, i as int);
                    lemma_place(before, i as int, before.len() as int, address@);
                }
                if psbt.outputs[i].script_pubkey.len() > 0 {
                    assert(extensions::sp_info(old(psbt).outputs@[i as int]) is Some);
                    return Err(
                        Error::Other(OtherError::OverwritingScript { output_index: i }),
                    );
                }
                psbt.outputs[i].script_pubkey = new_p2tr_tweaked(&list[n]);
                n += 1;
                assert(pays_own_key(before, psbt.outputs@[i as int], i as int, lists));
            }
            i += 1;
        }
        e += 1;
        proof {
            lemma_next_address(before, psbt.outputs@, lists, addresses, e as int);
        }
    }
    proof {
        lemma_all_paid(before, psbt.outputs@, lists, addresses);
        assert forall|address: Seq<u8>| #[trigger] lists.contains_key(address) implies
            lists[address].len() == sp_outputs::outputs_to(
            before,
            before.len() as int,
            address,
        ) by {
            assert(addresses.contains(address));
            let k = choose|k: int| 0 <= k < addresses.len() && addresses[k] == address;
            assert(lists[addresses[k]].len() == sp_outputs::outputs_to(
                before,
                before.len() as int,
                addresses[k],
            ));
        }
        assert(taproot_paid(before, psbt.outputs@)) by {
            assert forall|i: int|
                0 <= i < before.len() && extensions::sp_info(
                    before[i],
                ) is Some implies script::p2tr((#[trigger] psbt.outputs@[i]).script_pubkey@) by {
                let address = sp_outputs::output_address(before[i])->Some_0;
                let place = sp_outputs::outputs_to(before, i, address) as int;
                assert(is_target(before, address));
                assert(lists.contains_key(address));
                assert(pays_own_key(before, psbt.outputs@[i], i, lists));
                assert(lists[address][place] == keys@[address][place]@);
            }
        }
        assert(scripts_open(before)) by {
            assert forall|i: int|
                0 <= i < before.len() && extensions::sp_info(
                    #[trigger] before[i],
                ) is Some implies before[i].script_pubkey@.len() == 0 by {
                assert(pays_own_key(before, psbt.outputs@[i], i, lists));
            }
        }
    }
    psbt.global.tx_modifiable_flags = 0;
    Ok(())
}

/// The place of an output among those to its address is below their number.
proof fn lemma_place(outputs: Seq<Output>, i: int, n: int, address: Seq<u8>)
    requires
        0 <= i < n <= outputs.len(),
        sp_outputs::output_address(outputs[i]) == Some(address),
    ensures
        sp_outputs::outputs_to(outputs, i, address) < sp_outputs::outputs_to(outputs, n, address),
    decreases n,
{
    if i < n - 1 {
        lemma_place(outputs, i, n - 1, address);
    }
}

proof fn lemma_next_address(
    before: Seq<Output>,
    after: Seq<Output>,
    lists: Map<Seq<u8>, Seq<Seq<u8>>>,
    addresses: Seq<Seq<u8>>,
    e: int,
)
    requires
        0 < e <= addresses.len(),
        paid_so_far(before, after, lists, addresses, e - 1, before.len() as int),
    ensures
        paid_so_far(before, after, lists, addresses, e, 0),
{
    assert forall|i: int| 0 <= i < before.len() implies reached(
        before[i],
        i,
        addresses,
        e - 1,
        before.len() as int,
    ) == reached(#[trigger] before[i], i, addresses, e, 0) by {
        if let Some(address) = sp_outputs::output_address(before[i]) {
            if addresses[e - 1] == address {
                assert(reached(before[i], i, addresses, e, 0));
            }
        }
    }
    assert forall|i: int| 0 <= i < before.len() implies if reached(
        before[i],
        i,
        addresses,
        e,
        0,
    ) {
        pays_own_key(before, #[trigger] after[i], i, lists)
    } else {
        after[i] == before[i]
    } by {
        assert(reached(before[i], i, addresses, e - 1, before.len() as int) == reached(
            before[i],
            i,
            addresses,
            e,
            0,
        ));
    }
}

proof fn lemma_all_paid(
    before: Seq<Output>,
    after: Seq<Output>,
    lists: Map<Seq<u8>, Seq<Seq<u8>>>,
    addresses: Seq<Seq<u8>>,
)
    requires
        paid_so_far(before, after, lists, addresses, addresses.len() as int, 0),
        addresses_match(before, lists),
        forall|address: Seq<u8>|
            lists.contains_key(address) <==> #[trigger] addresses.contains(address),
    ensures
        all_paid(before, after, lists),
{
    assert forall|i: int| 0 <= i < before.len() implies if extensions::sp_info(before[i]) is Some {
        pays_own_key(before, #[trigger] after[i], i, lists)
    } else {
        after[i] == before[i]
    } by {
        if extensions::sp_info(before[i]) is Some {
            let address = sp_outputs::output_address(before[i])->Some_0;
            assert(is_target(before, address));
            assert(lists.contains_key(address));
            assert(addresses.contains(address));
            assert(reached(before[i], i, addresses, addresses.len() as int, 0));
        } else if reached(before[i], i, addresses, addresses.len() as int, 0) {
            let address = sp_outputs::output_address(before[i])->Some_0;
            assert(addresses.contains(address));
            assert(lists.contains_key(address));
            lemma_target_pays(before, address, i);
        }
    }
}

/// The keys that are derived from the shares fit the outputs: the addresses are those of the
/// outputs that make a payment, each has as many keys as outputs, and each such output finds at its
/// place the key that its spend key, the shared secret of its scan key and its counter give.
pub proof fn law_final_keys_fit(psbt: Psbt, list: Seq<(Seq<u8>, Seq<u8>)>)
    requires
        final_keys(psbt) == Ok::<_, Error>(list),
    ensures
        addresses_match(psbt.outputs@, sending::grouped(list)),
        counts_match(psbt.outputs@, sending::grouped(list)),
        ({
            let key_sum = shares::eligible_key_sum(psbt.inputs@)->Ok_0;
            let items = secret_payments(psbt.outputs@, shared_secrets(psbt, key_sum));
            let payments = collected::collected(items)->Ok_0;
            forall|i: int|
                0 <= i < psbt.outputs@.len() ==> ((#[trigger] extensions::sp_info(
                    psbt.outputs@[i],
                )) matches Some(info) ==> {
                    let address = sending::address_bytes(info);
                    let place = sp_outputs::outputs_to(psbt.outputs@, i, address) as int;
                    &&& place < sending::grouped(list)[address].len()
                    &&& total_secret(psbt, key_sum, types::first_key(info)) matches Some(secret)
                    &&& sending::output_key(
                        secret,
                        types::second_key(info),
                        sending::counter(payments, collected::rank(items, i) as int),
                    ) == Some(sending::grouped(list)[address][place])
                })
        }),
{
    let outputs = psbt.outputs@;
    let lists = sending::grouped(list);
    let key_sum = shares::eligible_key_sum(psbt.inputs@)->Ok_0;
    let secrets = shared_secrets(psbt, key_sum);
    let items = secret_payments(outputs, secrets);
    let payments = collected::collected(items)->Ok_0;
    collected::lemma_values(items);
    assert forall|i: int| 0 <= i < items.len() implies (#[trigger] items[i]) is Ok
        && sp_outputs::makes_payment(items[i]) == (extensions::sp_info(outputs[i]) is Some) by {
        assert(items[i] == secret_payment(outputs, i, secrets));
    }
    assert(sp_outputs::describes(items, outputs)) by {
        assert forall|i: int| 0 <= i < items.len() implies ((#[trigger] items[i]) matches Ok(
            Some(payment),
        ) ==> sp_outputs::output_address(outputs[i]) == Some(
            sending::address_bytes(payment.info),
        )) by {
            assert(items[i] == secret_payment(outputs, i, secrets));
        }
        assert forall|i: int, j: int|
            0 <= i < items.len() && 0 <= j < items.len() && sp_outputs::makes_payment(
                #[trigger] items[i],
            ) && sp_outputs::output_address(outputs[i]) == sp_outputs::output_address(
                outputs[j],
            ) implies sp_outputs::makes_payment(#[trigger] items[j]) by {
            let address = sp_outputs::output_address(outputs[i])->Some_0;
            assert(extensions::sp_info(outputs[i]) is Some);
            assert(is_target(outputs, address));
            lemma_target_pays(outputs, address, j);
        }
    }
    sp_outputs::law_keys_fit_outputs(items, outputs, payments, list);
    assert forall|address: Seq<u8>| #[trigger] lists.contains_key(address) <==> is_target(
        outputs,
        address,
    ) by {
        if lists.contains_key(address) {
            let i = choose|i: int|
                0 <= i < items.len() && sp_outputs::makes_payment(#[trigger] items[i])
                    && sp_outputs::output_address(outputs[i]) == Some(address);
            assert(extensions::sp_info(outputs[i]) is Some);
        }
        if is_target(outputs, address) {
            let i = choose|i: int|
                0 <= i < outputs.len() && extensions::sp_info(#[trigger] outputs[i]) is Some
                    && sp_outputs::output_address(outputs[i]) == Some(address);
            assert(sp_outputs::makes_payment(items[i]));
        }
    }
    assert forall|i: int| 0 <= i < outputs.len() implies ((#[trigger] extensions::sp_info(
        outputs[i],
    )) matches Some(info) ==> {
        let address = sending::address_bytes(info);
        let place = sp_outputs::outputs_to(outputs, i, address) as int;
        &&& place < lists[address].len()
        &&& total_secret(psbt, key_sum, types::first_key(info)) matches Some(secret)
        &&& sending::output_key(
            secret,
            types::second_key(info),
            sending::counter(payments, collected::rank(items, i) as int),
        ) == Some(lists[address][place])
    }) by {
        if let Some(info) = extensions::sp_info(outputs[i]) {
            assert(items[i] == secret_payment(outputs, i, secrets));
            assert(sp_outputs::makes_payment(items[i]));
            assert(secrets.contains_key(types::first_key(info)));
            assert(shares::total(psbt, types::first_key(info)) is Some);
        }
    }
}

/// The shares for some scan key do not cover the inputs that take part.
pub open spec fn incomplete(psbt: Psbt) -> bool {
    exists|scan_key: Seq<u8>| uncovered(psbt, scan_key)
}

/// What becomes of a transaction whose output scripts are derived.
pub open spec fn finalization(before: Psbt, after: Psbt, res: Result<(), Error>) -> bool {
    if before.inputs@.len() == 0 {
        res == Err::<(), _>(Error::Other(OtherError::NoInputs)) && after == before
    } else if shares::unsummable(before) {
        res == Err::<(), _>(error::no_sum()) && after == before
    } else if incomplete(before) {
        &&& after == before
        &&& res matches Err(Error::IncompleteEcdhCoverage(i)) && exists|scan_key: Seq<u8>|
            uncovered(before, scan_key) && first_payment(before.outputs@, scan_key, i as int)
    } else {
        match final_keys(before) {
            Err(error) => res == Err::<(), _>(error) && after == before,
            Ok(list) => if scripts_open(before.outputs@) {
                &&& res is Ok
                &&& after.inputs == before.inputs
                &&& after.global == (Global { tx_modifiable_flags: 0, ..before.global })
                &&& all_paid(before.outputs@, after.outputs@, sending::grouped(list))
                &&& taproot_paid(before.outputs@, after.outputs@)
            } else {
                &&& after.inputs == before.inputs
                &&& after.global == before.global
                &&& partly_paid(before.outputs@, after.outputs@, sending::grouped(list))
                &&& exists|i: int|
                    0 <= i < before.outputs@.len() && res == Err::<(), _>(
                        Error::Other(OtherError::OverwritingScript { output_index: i as usize }),
                    ) && extensions::sp_info(#[trigger] before.outputs@[i]) is Some
                        && before.outputs@[i].script_pubkey@.len() > 0
            },
        }
    }
}

/// Derives the scripts of the silent payment outputs from the shares of a transaction. They are the
/// same on each network.
pub fn finalize_sp_outputs(psbt: &mut Psbt, _network: Network) -> (res: Result<(), Error>)
    requires
        old(psbt).outputs@.len() <= u32::MAX,
    ensures
        finalization(*old(psbt), *final(psbt), res),
{
    let aggregated = match aggregate_ecdh_shares(psbt) {
        Ok(aggregated) => aggregated,
        Err(error) => return Err(error),
    };
    if let Some(scan_key) = find_uncovered(psbt, &aggregated) {
        let output_index = find_first_payment(psbt, &scan_key);
        return Err(Error::IncompleteEcdhCoverage(output_index));
    }
    let keys = match derive_final_keys(psbt, &aggregated) {
        Ok(keys) => keys,
        Err(error) => return Err(error),
    };
    proof {
        law_final_keys_fit(*psbt, final_keys(*psbt)->Ok_0);
    }
    apply_recipient_keys(psbt, &keys)
}

/// Scripts are never overwritten: deriving them a second time fails, and changes nothing.
pub proof fn law_scripts_are_not_overwritten(
    before: Psbt,
    after: Psbt,
    again: Psbt,
    res: Result<(), Error>,
    i: int,
)
    requires
        finalization(before, after, Ok(())),
        0 <= i < before.outputs@.len(),
        extensions::sp_info(before.outputs@[i]) is Some,
        finalization(after, again, res),
    ensures
        res matches Err(Error::Other(OtherError::OverwritingScript { .. })),
        again.global == after.global,
        again.inputs == after.inputs,
        again.outputs@ == after.outputs@,
{
    let outputs = before.outputs@;
    let list = final_keys(before)->Ok_0;
    assert forall|j: int| 0 <= j < outputs.len() implies (#[trigger] after.outputs@[j]).sp_v0_info
        == outputs[j].sp_v0_info by {
        assert(if extensions::sp_info(outputs[j]) is Some {
            pays_own_key(outputs, after.outputs@[j], j, sending::grouped(list))
        } else {
            after.outputs@[j] == outputs[j]
        });
    }
    assert forall|scan_key: Seq<u8>| shares::total(after, scan_key) == shares::total(
        before,
        scan_key,
    ) by {
    }
    assert forall|scan_key: Seq<u8>| !uncovered(after, scan_key) by {
        assert(!uncovered(before, scan_key));
    }
    if shares::unsummable(after) {
        let scan_key = choose|scan_key: Seq<u8>|
            !after.global.sp_ecdh_shares@.contains_key(scan_key) && (
            #[trigger] shares::contributed(after.inputs@, scan_key)).len() > 0 && secp::sum_points(
                shares::contributed(after.inputs@, scan_key),
            ) is None;
        assert(shares::contributed(before.inputs@, scan_key).len() > 0);
    }
    assert(final_keys(after) == final_keys(before)) by {
        if let Ok(key_sum) = shares::eligible_key_sum(before.inputs@) {
            assert(shared_secrets(after, key_sum) =~= shared_secrets(before, key_sum));
            let secrets = shared_secrets(before, key_sum);
            assert forall|j: int| 0 <= j < outputs.len() implies #[trigger] secret_payment(
                after.outputs@,
                j,
                secrets,
            ) == secret_payment(outputs, j, secrets) by {
                assert(after.outputs@[j].sp_v0_info == outputs[j].sp_v0_info);
            }
            assert(secret_payments(after.outputs@, secrets) =~= secret_payments(outputs, secrets));
            if hash_fails(after, key_sum) {
                let scan_key = choose|scan_key: Seq<u8>| #[trigger]
                    shares::total(after, scan_key) is Some && total_secret(
                        after,
                        key_sum,
                        scan_key,
                    ) is None;
                assert(shares::total(before, scan_key) is Some);
            }
            if hash_fails(before, key_sum) {
                let scan_key = choose|scan_key: Seq<u8>| #[trigger]
                    shares::total(before, scan_key) is Some && total_secret(
                        before,
                        key_sum,
                        scan_key,
                    ) is None;
                assert(shares::total(after, scan_key) is Some);
            }
        }
    }
    assert(after.outputs@[i].sp_v0_info == outputs[i].sp_v0_info);
    assert(extensions::sp_info(after.outputs@[i]) is Some);
    assert(script::p2tr(after.outputs@[i].script_pubkey@));
    assert(!scripts_open(after.outputs@));
    assert forall|j: int| 0 <= j < outputs.len() implies #[trigger] again.outputs@[j]
        == after.outputs@[j] by {
        assert(after.outputs@[j].sp_v0_info == outputs[j].sp_v0_info);
        if extensions::sp_info(outputs[j]) is Some {
            assert(script::p2tr(after.outputs@[j].script_pubkey@));
        }
    }
    assert(again.outputs@ =~= after.outputs@);
}

/// The signer and this role derive the same secret for a scan key without a global share, where it
/// is known of each input whether it takes part, and those that do have a share for it, and no
/// others.
pub proof fn law_agrees_with_signer(psbt: Psbt, scan_key: Seq<u8>)
    requires
        !psbt.global.sp_ecdh_shares@.contains_key(scan_key),
        input_key::input_keys(psbt.inputs@) is Ok,
        forall|j: int|
            0 <= j < psbt.inputs@.len() ==> ((
            #[trigger] psbt.inputs@[j]).sp_ecdh_shares@.contains_key(scan_key) <==>
                input_key::input_point(psbt.inputs@[j]) is Some),
        shares::total(psbt, scan_key) is Some,
        shares::eligible_key_sum(psbt.inputs@) is Ok,
    ensures
        !uncovered(psbt, scan_key),
        payments::output_secret(psbt, scan_key) == (match total_secret(
            psbt,
            shares::eligible_key_sum(psbt.inputs@)->Ok_0,
            scan_key,
        ) {
            Some(secret) => Ok(secret),
            None => Err(
                Error::Other(
                    OtherError::InputHash(
                        secrets::hash_failure(
                            psbt::outpoints(psbt.inputs@),
                            shares::eligible_key_sum(psbt.inputs@)->Ok_0,
                        ),
                    ),
                ),
            ),
        }),
{
    let inputs = psbt.inputs@;
    let key_items = input_key::input_key_items(inputs);
    collected::lemma_values(key_items);
    assert forall|j: int| 0 <= j < inputs.len() implies #[trigger] key_items[j]
        == shares::eligible_key_items(inputs)[j] && utils::eligibility(inputs[j]) is Ok by {
        assert(key_items[j] is Ok);
    }
    assert(key_items =~= shares::eligible_key_items(inputs));
    assert forall|j: int| 0 <= j < inputs.len() implies input_key::input_key(
        #[trigger] inputs[j],
        Some(j as usize),
    ) is Ok by {
        assert(key_items[j] is Ok);
    }
    lemma_same_contributions(inputs, scan_key);
    assert(aggregation::all_share(inputs, scan_key));
}

/// Where the inputs that take part have a share, and no others, the shares of both roles are the
/// same, and as many as those inputs.
proof fn lemma_same_contributions(inputs: Seq<Input>, scan_key: Seq<u8>)
    requires
        forall|j: int|
            0 <= j < inputs.len() ==> ((#[trigger] inputs[j]).sp_ecdh_shares@.contains_key(scan_key)
                <==> input_key::input_point(inputs[j]) is Some),
        forall|j: int|
            0 <= j < inputs.len() ==> input_key::input_key(
                #[trigger] inputs[j],
                Some(j as usize),
            ) is Ok,
    ensures
        shares::contributed(inputs, scan_key) == aggregation::shares_for(inputs, scan_key),
        shares::contributed(inputs, scan_key).len() == eligible_count(inputs),
    decreases inputs.len(),
{
    if inputs.len() > 0 {
        let rest = inputs.drop_last();
        let last = inputs[inputs.len() - 1];
        assert forall|j: int| 0 <= j < rest.len() implies ((
        #[trigger] rest[j]).sp_ecdh_shares@.contains_key(scan_key) <==> input_key::input_point(
            rest[j],
        ) is Some) && input_key::input_key(rest[j], Some(j as usize)) is Ok by {
            assert(rest[j] == inputs[j]);
        }
        lemma_same_contributions(rest, scan_key);
        assert(last.sp_ecdh_shares@.contains_key(scan_key) <==> input_key::input_point(
            last,
        ) is Some);
    }
}

/// Where everything that has the one property has the other, and those with the one are as many as
/// those with the other, the two go together.
proof fn lemma_equal_counts(
    inputs: Seq<Input>,
    narrow: spec_fn(Input) -> bool,
    wide: spec_fn(Input) -> bool,
)
    requires
        forall|i: int|
            0 <= i < inputs.len() && narrow(#[trigger] inputs[i]) ==> wide(inputs[i]),
    ensures
        inputs.filter(narrow).len() <= inputs.filter(wide).len(),
        inputs.filter(narrow).len() == inputs.filter(wide).len() ==> forall|i: int|
            0 <= i < inputs.len() && wide(#[trigger] inputs[i]) ==> narrow(inputs[i]),
    decreases inputs.len(),
{
    reveal(Seq::filter);
    if inputs.len() > 0 {
        let rest = inputs.drop_last();
        assert forall|i: int| 0 <= i < rest.len() && narrow(#[trigger] rest[i]) implies wide(
            rest[i],
        ) by {
            assert(rest[i] == inputs[i]);
        }
        lemma_equal_counts(rest, narrow, wide);
        let n = inputs.len() - 1;
        assert(narrow(inputs[n]) ==> wide(inputs[n]));
        assert forall|i: int|
            0 <= i < inputs.len() && inputs.filter(narrow).len() == inputs.filter(wide).len()
                && wide(#[trigger] inputs[i]) implies narrow(inputs[i]) by {
            if i < n {
                assert(rest[i] == inputs[i]);
            }
        }
    }
}

/// The inputs that take part are counted among the inputs themselves.
pub proof fn law_eligible_count(inputs: Seq<Input>)
    ensures
        eligible_count(inputs) == inputs.filter(
            |input: Input| utils::eligibility(input) == Ok::<_, Error>(true),
        ).len(),
    decreases inputs.len(),
{
    reveal(Seq::filter);
    if inputs.len() > 0 {
        law_eligible_count(inputs.drop_last());
    }
}

/// The scripts are derived only where the shares cover the inputs. A scan key of a silent payment
/// output has a global share, or some inputs have a share for it, as many as take part. Where only
/// inputs that take part have a share, each of them does.
pub proof fn law_coverage(before: Psbt, after: Psbt, i: int)
    requires
        finalization(before, after, Ok(())),
        0 <= i < before.outputs@.len(),
        extensions::sp_info(before.outputs@[i]) is Some,
    ensures
        ({
            let scan_key = before.outputs@[i].sp_v0_info->Some_0@.subrange(0, 33);
            let holders = before.inputs@.filter(
                |input: Input| input.sp_ecdh_shares@.contains_key(scan_key),
            );
            let takers = before.inputs@.filter(
                |input: Input| utils::eligibility(input) == Ok::<_, Error>(true),
            );
            !before.global.sp_ecdh_shares@.contains_key(scan_key) ==> {
                &&& 0 < holders.len() == takers.len()
                &&& (forall|j: int|
                    0 <= j < before.inputs@.len() && (
                    #[trigger] before.inputs@[j]).sp_ecdh_shares@.contains_key(scan_key)
                        ==> utils::eligibility(before.inputs@[j]) == Ok::<_, Error>(true)) ==> (
                forall|j: int|
                    0 <= j < before.inputs@.len() && utils::eligibility(
                        #[trigger] before.inputs@[j],
                    ) == Ok::<_, Error>(true)
                        ==> before.inputs@[j].sp_ecdh_shares@.contains_key(scan_key))
            }
        }),
{
    let inputs = before.inputs@;
    let scan_key = before.outputs@[i].sp_v0_info->Some_0@.subrange(0, 33);
    let has_share = |input: Input| input.sp_ecdh_shares@.contains_key(scan_key);
    let takes_part = |input: Input| utils::eligibility(input) == Ok::<_, Error>(true);
    lemma_secret_is_there(before, after, i);
    assert(!uncovered(before, scan_key));
    shares::law_contributed_shares(inputs, scan_key);
    law_eligible_count(inputs);
    if forall|j: int|
        0 <= j < inputs.len() && (#[trigger] inputs[j]).sp_ecdh_shares@.contains_key(scan_key)
            ==> utils::eligibility(inputs[j]) == Ok::<_, Error>(true) {
        assert forall|j: int| 0 <= j < inputs.len() && has_share(#[trigger] inputs[j]) implies
            takes_part(inputs[j]) by {
            assert(inputs[j].sp_ecdh_shares@.contains_key(scan_key));
        }
        lemma_equal_counts(inputs, has_share, takes_part);
        if !before.global.sp_ecdh_shares@.contains_key(scan_key) {
            assert forall|j: int|
                0 <= j < inputs.len() && utils::eligibility(#[trigger] inputs[j]) == Ok::<
                    _,
                    Error,
                >(true) implies inputs[j].sp_ecdh_shares@.contains_key(scan_key) by {
                assert(takes_part(inputs[j]));
                assert(has_share(inputs[j]));
            }
        }
    }
}

/// Where the scripts are derived, there is a total for the scan key of each payment.
proof fn lemma_secret_is_there(before: Psbt, after: Psbt, i: int)
    requires
        finalization(before, after, Ok(())),
        0 <= i < before.outputs@.len(),
        extensions::sp_info(before.outputs@[i]) is Some,
    ensures
        shares::total(
            before,
            before.outputs@[i].sp_v0_info->Some_0@.subrange(0, 33),
        ) is Some,
{
    let key_sum = shares::eligible_key_sum(before.inputs@)->Ok_0;
    let items = secret_payments(before.outputs@, shared_secrets(before, key_sum));
    collected::lemma_values(items);
    assert(items[i] == secret_payment(before.outputs@, i, shared_secrets(before, key_sum)));
    assert(items[i] is Ok);
}

/// An input that takes part and has no share for the scan key of a silent payment output, which has
/// no global share, keeps the scripts from being derived, and the transaction stays as it was; as
/// long as no input that takes no part makes up for it with a share of its own. Where another
/// input has a share for the scan key and all shares have sums, the error is that of an incomplete
/// coverage, and it names the first output to a scan key that is not covered.
pub proof fn law_missing_share_is_refused(
    before: Psbt,
    after: Psbt,
    res: Result<(), Error>,
    i: int,
    j: int,
)
    requires
        finalization(before, after, res),
        0 <= i < before.outputs@.len(),
        extensions::sp_info(before.outputs@[i]) is Some,
        0 <= j < before.inputs@.len(),
        ({
            let scan_key = before.outputs@[i].sp_v0_info->Some_0@.subrange(0, 33);
            &&& !before.global.sp_ecdh_shares@.contains_key(scan_key)
            &&& utils::eligibility(before.inputs@[j]) == Ok::<_, Error>(true)
            &&& !before.inputs@[j].sp_ecdh_shares@.contains_key(scan_key)
            &&& forall|k: int|
                0 <= k < before.inputs@.len() && (
                #[trigger] before.inputs@[k]).sp_ecdh_shares@.contains_key(scan_key)
                    ==> utils::eligibility(before.inputs@[k]) == Ok::<_, Error>(true)
        }),
    ensures
        res is Err,
        after == before,
        (exists|k: int|
            0 <= k < before.inputs@.len() && (
            #[trigger] before.inputs@[k]).sp_ecdh_shares@.contains_key(
                before.outputs@[i].sp_v0_info->Some_0@.subrange(0, 33),
            )) && !shares::unsummable(before) ==> res matches Err(
            Error::IncompleteEcdhCoverage(_),
        ),
{
    let inputs = before.inputs@;
    let scan_key = before.outputs@[i].sp_v0_info->Some_0@.subrange(0, 33);
    let has_share = |input: Input| input.sp_ecdh_shares@.contains_key(scan_key);
    let takes_part = |input: Input| utils::eligibility(input) == Ok::<_, Error>(true);
    assert forall|k: int| 0 <= k < inputs.len() && has_share(#[trigger] inputs[k]) implies
        takes_part(inputs[k]) by {
        assert(inputs[k].sp_ecdh_shares@.contains_key(scan_key));
    }
    lemma_equal_counts(inputs, has_share, takes_part);
    assert(takes_part(inputs[j]) && !has_share(inputs[j]));
    assert(inputs.filter(has_share).len() != inputs.filter(takes_part).len());
    shares::law_contributed_shares(inputs, scan_key);
    law_eligible_count(inputs);
    if exists|k: int|
        0 <= k < inputs.len() && (#[trigger] inputs[k]).sp_ecdh_shares@.contains_key(scan_key) {
        shares::lemma_contributor(inputs, scan_key);
        if !shares::unsummable(before) {
            assert(shares::contributed(inputs, scan_key).len() > 0);
            assert(uncovered(before, scan_key));
        }
    } else {
        shares::lemma_contributor(inputs, scan_key);
        assert(shares::total(before, scan_key) is None);
        if !shares::unsummable(before) && !incomplete(before) {
            if let Ok(key_sum) = shares::eligible_key_sum(inputs) {
                let items = secret_payments(before.outputs@, shared_secrets(before, key_sum));
                assert(items[i] == secret_payment(
                    before.outputs@,
                    i,
                    shared_secrets(before, key_sum),
                ));
                if collected::collected(items) is Ok {
                    collected::lemma_values(items);
                    assert(items[i] is Ok);
                }
            }
        }
    }
}

/// A coverage that is refused is incomplete: for some scan key without a global share, the inputs
/// with a share for it, of which there are some, are not as many as take part. The error names the
/// first silent payment output to it, or the first output where there is none.
pub proof fn law_refused_coverage_is_incomplete(before: Psbt, after: Psbt, n: usize) -> (scan_key:
    Seq<u8>)
    requires
        finalization(before, after, Err(Error::IncompleteEcdhCoverage(n))),
        before.outputs@.len() <= u32::MAX,
    ensures
        after == before,
        !before.global.sp_ecdh_shares@.contains_key(scan_key),
        ({
            let holders = before.inputs@.filter(
                |input: Input| input.sp_ecdh_shares@.contains_key(scan_key),
            );
            let takers = before.inputs@.filter(
                |input: Input| utils::eligibility(input) == Ok::<_, Error>(true),
            );
            0 < holders.len() && holders.len() != takers.len()
        }),
        n == 0 || (extensions::sp_info(before.outputs@[n as int]) matches Some(info)
            && info.subrange(0, 33) == scan_key),
        forall|i: int|
            0 <= i < n ==> !(extensions::sp_info(#[trigger] before.outputs@[i]) matches Some(info)
                && info.subrange(0, 33) == scan_key),
{
    lemma_other_errors(before);
    let scan_key = choose|scan_key: Seq<u8>|
        uncovered(before, scan_key) && first_payment(before.outputs@, scan_key, n as int);
    shares::law_contributed_shares(before.inputs@, scan_key);
    law_eligible_count(before.inputs@);
    assert forall|i: int| 0 <= i < n implies !(extensions::sp_info(
        #[trigger] before.outputs@[i],
    ) matches Some(info) && info.subrange(0, 33) == scan_key) by {
        assert(!pays_scan_key(before.outputs@[i], scan_key));
    }
    scan_key
}

/// No other failure is that of an incomplete coverage, or of a script that is there already.
proof fn lemma_other_errors(psbt: Psbt)
    ensures
        !(final_keys(psbt) matches Err(Error::Other(OtherError::OverwritingScript { .. }))),
        !(final_keys(psbt) matches Err(Error::IncompleteEcdhCoverage(_))),
{
    let items = shares::eligible_key_items(psbt.inputs@);
    if collected::collected(items) is Err {
        collected::lemma_failure_source(items);
    }
    if let Ok(key_sum) = shares::eligible_key_sum(psbt.inputs@) {
        let payment_items = secret_payments(psbt.outputs@, shared_secrets(psbt, key_sum));
        if collected::collected(payment_items) is Err {
            collected::lemma_failure_source(payment_items);
        } else {
            let payments = collected::collected(payment_items)->Ok_0;
            if sending::recipient_keys(payments) is Err {
                collected::lemma_failure_source(sending::payment_keys(payments));
            }
        }
    }
}

/// Where the scripts are derived, the script of a silent payment output pays to its taproot key.
/// That comes from the shared secret of its scan key, its spend key and the number of earlier silent
/// payment outputs to the scan key. The shared secret is what the shares for the scan key are
/// combined to, or the global share, times the hash over the inputs, and the keys of the inputs
/// that take part are combined for that hash. Nothing else of the transaction changes, but that it
/// may not be modified any more.
///
/// The result is the share, the sum of the keys, the shared secret and the taproot key.
pub proof fn law_final_scripts(before: Psbt, after: Psbt, i: int) -> (res: (
    Seq<u8>,
    Seq<u8>,
    Seq<u8>,
    Seq<u8>,
))
    requires
        finalization(before, after, Ok(())),
        0 <= i < before.outputs@.len(),
        extensions::sp_info(before.outputs@[i]) is Some,
    ensures
        ({
            let (share, key_sum, secret, key) = res;
            let info = before.outputs@[i].sp_v0_info->Some_0@;
            let scan_key = info.subrange(0, 33);
            let global = before.global.sp_ecdh_shares@;
            let holders = before.inputs@.filter(
                |input: Input| input.sp_ecdh_shares@.contains_key(scan_key),
            );
            let takers = before.inputs@.filter(
                |input: Input| utils::eligibility(input) == Ok::<_, Error>(true),
            );
            let k = before.outputs@.take(i).filter(
                |output: Output|
                    extensions::sp_info(output) is Some
                        && output.sp_v0_info->Some_0@.subrange(0, 33) == scan_key,
            ).len();
            &&& if global.contains_key(scan_key) {
                share == global[scan_key]@
            } else {
                secp::combined_points(
                    holders.map_values(|input: Input| input.sp_ecdh_shares@[scan_key]@),
                ) == Some(share)
            }
            &&& secp::combined_points(
                takers.map_values(|input: Input| input_key::input_point(input)->Some_0),
            ) == Some(key_sum)
            &&& secp::point_times(
                share,
                hash::input_digest(psbt::outpoints(before.inputs@), key_sum),
            ) == Some(secret)
            &&& sending::output_key(secret, info.subrange(33, 66), k) == Some(key)
            &&& after.outputs@[i].script_pubkey@ == seq![81u8, 32u8] + key
            &&& after.outputs@[i] == (Output {
                script_pubkey: after.outputs@[i].script_pubkey,
                ..before.outputs@[i]
            })
        }),
        before.outputs@[i].script_pubkey@.len() == 0,
{
    let outputs = before.outputs@;
    let info = outputs[i].sp_v0_info->Some_0@;
    let scan_key = info.subrange(0, 33);
    let list = final_keys(before)->Ok_0;
    let key_sum = shares::eligible_key_sum(before.inputs@)->Ok_0;
    let secrets = shared_secrets(before, key_sum);
    let items = secret_payments(outputs, secrets);
    let payments = collected::collected(items)->Ok_0;
    let pays = |output: Output|
        extensions::sp_info(output) is Some && output.sp_v0_info->Some_0@.subrange(0, 33)
            == scan_key;
    law_final_keys_fit(before, list);
    lemma_secret_is_there(before, after, i);
    shares::law_contributed_shares(before.inputs@, scan_key);
    shares::law_eligible_key_sum(before.inputs@);
    collected::lemma_values(items);
    assert forall|j: int| 0 <= j < items.len() implies pays(outputs[j]) == ((
    #[trigger] items[j]) matches Ok(Some(payment)) && payment.info.subrange(0, 33) == scan_key) by {
        assert(items[j] == secret_payment(outputs, j, secrets));
        assert(items[j] is Ok);
    }
    sp_outputs::lemma_counter_among_outputs(items, outputs, payments, i, scan_key, pays);
    assert(items[i] == secret_payment(outputs, i, secrets));
    assert(items[i] is Ok);
    assert(items[i]->Ok_0 is Some);
    let r = collected::rank(items, i) as int;
    assert(payments[r].info == info);
    let address = sending::address_bytes(info);
    let place = sp_outputs::outputs_to(outputs, i, address) as int;
    assert(extensions::sp_info(outputs[i]) == Some(info));
    let secret = total_secret(before, key_sum, scan_key)->Some_0;
    let key = sending::grouped(list)[address][place];
    assert(pays_own_key(outputs, after.outputs@[i], i, sending::grouped(list)));
    (shares::total(before, scan_key)->Some_0.share, key_sum, secret, key)
}

/// Where the scripts are derived, the inputs and the other outputs stay as they were, and of the
/// global map only that the transaction may not be modified any more.
pub proof fn law_final_rest(before: Psbt, after: Psbt, i: int)
    requires
        finalization(before, after, Ok(())),
        0 <= i < before.outputs@.len(),
        extensions::sp_info(before.outputs@[i]) is None,
    ensures
        after.outputs@.len() == before.outputs@.len(),
        after.outputs@[i] == before.outputs@[i],
        after.inputs == before.inputs,
        after.global.tx_modifiable_flags == 0,
        after.global == (Global { tx_modifiable_flags: 0, ..before.global }),
{
    let list = final_keys(before)->Ok_0;
    assert(if extensions::sp_info(before.outputs@[i]) is Some {
        pays_own_key(before.outputs@, after.outputs@[i], i, sending::grouped(list))
    } else {
        after.outputs@[i] == before.outputs@[i]
    });
}

/// Where the scripts are not derived, no input, no field of the global map and no output but for a
/// script that was open is changed. An error that a script is there already names a silent payment
/// output that has one.
pub proof fn law_failure_keeps_scripts(before: Psbt, after: Psbt, error: Error, i: int)
    requires
        finalization(before, after, Err(error)),
        before.outputs@.len() <= u32::MAX,
        0 <= i < before.outputs@.len(),
    ensures
        after.global == before.global,
        after.inputs == before.inputs,
        after.outputs@.len() == before.outputs@.len(),
        after.outputs@[i] == (Output {
            script_pubkey: after.outputs@[i].script_pubkey,
            ..before.outputs@[i]
        }),
        before.outputs@[i].script_pubkey@.len() > 0 ==> after.outputs@[i] == before.outputs@[i],
        !(error matches Error::Other(OtherError::OverwritingScript { .. })) ==> after == before,
        error matches Error::Other(OtherError::OverwritingScript { output_index })
            ==> output_index < before.outputs@.len() && extensions::sp_info(
            before.outputs@[output_index as int],
        ) is Some && before.outputs@[output_index as int].script_pubkey@.len() > 0,
{
    lemma_other_errors(before);
    if before.inputs@.len() > 0 && !shares::unsummable(before) && !incomplete(before) {
        if final_keys(before) is Ok {
            assert(!scripts_open(before.outputs@));
        }
    }
}

/// The addresses with keys are those of the silent payment outputs, and each has as many keys as
/// silent payment outputs have it.
pub proof fn law_addresses_match(
    outputs: Seq<Output>,
    lists: Map<Seq<u8>, Seq<Seq<u8>>>,
)
    ensures
        addresses_match(outputs, lists) <==> forall|address: Seq<u8>| #[trigger]
            lists.contains_key(address) <==> exists|i: int|
                0 <= i < outputs.len() && extensions::sp_info(#[trigger] outputs[i]) is Some
                    && seq![0u8] + outputs[i].sp_v0_info->Some_0@ == address,
{
    assert forall|address: Seq<u8>| is_target(outputs, address) <==> exists|i: int|
        0 <= i < outputs.len() && extensions::sp_info(#[trigger] outputs[i]) is Some && seq![0u8]
            + outputs[i].sp_v0_info->Some_0@ == address by {
        if is_target(outputs, address) {
            let i = choose|i: int|
                0 <= i < outputs.len() && extensions::sp_info(#[trigger] outputs[i]) is Some
                    && sp_outputs::output_address(outputs[i]) == Some(address);
            assert(seq![0u8] + outputs[i].sp_v0_info->Some_0@ == address);
        }
    }
    if addresses_match(outputs, lists) {
        assert forall|address: Seq<u8>| #[trigger]
            lists.contains_key(address) <==> exists|i: int|
                0 <= i < outputs.len() && extensions::sp_info(#[trigger] outputs[i]) is Some
                    && seq![0u8] + outputs[i].sp_v0_info->Some_0@ == address by {
            assert(lists.contains_key(address) <==> is_target(outputs, address));
        }
    }
    if forall|address: Seq<u8>| #[trigger]
        lists.contains_key(address) <==> exists|i: int|
            0 <= i < outputs.len() && extensions::sp_info(#[trigger] outputs[i]) is Some
                && seq![0u8] + outputs[i].sp_v0_info->Some_0@ == address {
        assert forall|address: Seq<u8>| #[trigger] lists.contains_key(address) <==> is_target(
            outputs,
            address,
        ) by {
        }
    }
}

/// Each address has as many keys as outputs have it.
pub proof fn law_counts_match(
    outputs: Seq<Output>,
    lists: Map<Seq<u8>, Seq<Seq<u8>>>,
    address: Seq<u8>,
)
    requires
        counts_match(outputs, lists),
        lists.contains_key(address),
    ensures
        lists[address].len() == outputs.filter(
            |output: Output|
                output.sp_v0_info is Some && seq![0u8] + output.sp_v0_info->Some_0@ == address,
        ).len(),
{
    assert(outputs.take(outputs.len() as int) =~= outputs);
    sp_outputs::law_outputs_to(outputs, outputs.len() as int, address);
}

/// An output that is paid had no script, and its script pays to the key of its address that stands
/// behind those of the earlier outputs with the same two keys. Nothing else of it changes.
pub proof fn law_paid_output(
    before: Seq<Output>,
    after: Output,
    i: int,
    lists: Map<Seq<u8>, Seq<Seq<u8>>>,
)
    requires
        0 <= i < before.len(),
        pays_own_key(before, after, i, lists),
    ensures
        ({
            let keys = before[i].sp_v0_info->Some_0@;
            let place = before.take(i).filter(
                |output: Output| output.sp_v0_info is Some && output.sp_v0_info->Some_0@ == keys,
            ).len();
            &&& extensions::sp_info(before[i]) is Some
            &&& before[i].script_pubkey@.len() == 0
            &&& place < lists[seq![0u8] + keys].len()
            &&& after.script_pubkey@ == seq![81u8, 32u8] + lists[seq![0u8] + keys][place as int]
            &&& after == (Output { script_pubkey: after.script_pubkey, ..before[i] })
        }),
{
    let keys = before[i].sp_v0_info->Some_0@;
    sp_outputs::law_outputs_to_same_keys(before, i, keys);
}

/// All outputs are paid where each silent payment output is, and the others stay as they were.
pub proof fn law_all_paid(
    before: Seq<Output>,
    after: Seq<Output>,
    lists: Map<Seq<u8>, Seq<Seq<u8>>>,
    i: int,
)
    requires
        all_paid(before, after, lists),
        0 <= i < before.len(),
    ensures
        after.len() == before.len(),
        extensions::sp_info(before[i]) is Some ==> pays_own_key(before, after[i], i, lists),
        extensions::sp_info(before[i]) is None ==> after[i] == before[i],
{
    assert(if extensions::sp_info(before[i]) is Some {
        pays_own_key(before, after[i], i, lists)
    } else {
        after[i] == before[i]
    });
}

/// The payment of an output goes to its two keys, with the shared secret of the first of them. An
/// output that is no silent payment makes none, and one whose scan key has no secret is an error.
pub proof fn law_secret_payment(
    outputs: Seq<Output>,
    i: int,
    secrets: Map<Seq<u8>, Seq<u8>>,
)
    requires
        0 <= i < outputs.len(),
    ensures
        secret_payments(outputs, secrets).len() == outputs.len(),
        extensions::sp_info(outputs[i]) is None ==> secret_payments(outputs, secrets)[i] == Ok::<
            Option<Payment>,
            Error,
        >(None),
        extensions::sp_info(outputs[i]) matches Some(info) ==> {
            let scan_key = info.subrange(0, 33);
            secret_payments(outputs, secrets)[i] == (if secrets.contains_key(scan_key) {
                Ok(Some(Payment { info, secret: secrets[scan_key] }))
            } else {
                Err(
                    Error::Other(
                        OtherError::MissingSharedSecret { scan_key: secp::key_of(scan_key) },
                    ),
                )
            })
        },
{
}

/// The scripts are derived where they can be: there are inputs; all shares have sums; for each scan
/// key without a global share, either no input has a share for it, or as many do as take part; the
/// keys of the inputs have a sum; the hash over the inputs can be applied to all shares; each
/// scan key of a silent payment output has a share; the keys of the payments can be derived; and
/// the silent payment outputs have no scripts yet.
pub proof fn law_scripts_are_derived(
    before: Psbt,
    after: Psbt,
    res: Result<(), Error>,
    payments: Seq<Payment>,
)
    requires
        finalization(before, after, res),
        before.inputs@.len() > 0,
        !shares::unsummable(before),
        forall|scan_key: Seq<u8>|
            {
                let holders = before.inputs@.filter(
                    |input: Input| input.sp_ecdh_shares@.contains_key(scan_key),
                );
                let takers = before.inputs@.filter(
                    |input: Input| utils::eligibility(input) == Ok::<_, Error>(true),
                );
                ||| #[trigger] before.global.sp_ecdh_shares@.contains_key(scan_key)
                ||| holders.len() == 0
                ||| holders.len() == takers.len()
            },
        shares::eligible_key_sum(before.inputs@) is Ok,
        !hash_fails(before, shares::eligible_key_sum(before.inputs@)->Ok_0),
        collected::collected(
            secret_payments(
                before.outputs@,
                shared_secrets(before, shares::eligible_key_sum(before.inputs@)->Ok_0),
            ),
        ) == Ok::<_, Error>(payments),
        sending::recipient_keys(payments) is Ok,
        forall|i: int|
            0 <= i < before.outputs@.len() && extensions::sp_info(
                #[trigger] before.outputs@[i],
            ) is Some ==> before.outputs@[i].script_pubkey@.len() == 0,
    ensures
        res is Ok,
{
    assert forall|scan_key: Seq<u8>| !uncovered(before, scan_key) by {
        shares::law_contributed_shares(before.inputs@, scan_key);
        law_eligible_count(before.inputs@);
        assert(before.global.sp_ecdh_shares@.contains_key(scan_key)
            || !before.global.sp_ecdh_shares@.contains_key(scan_key));
    }
}

/// A transaction without inputs is refused, and so is one with shares that have no sum.
pub proof fn law_refused_before_coverage(before: Psbt, after: Psbt, res: Result<(), Error>)
    requires
        finalization(before, after, res),
        before.inputs@.len() == 0 || shares::unsummable(before),
    ensures
        after == before,
        before.inputs@.len() == 0 ==> res == Err::<(), _>(Error::Other(OtherError::NoInputs)),
        before.inputs@.len() > 0 ==> res == Err::<(), _>(
            Error::Crypto(CryptoError::Secp256k1(SecpError::InvalidPublicKeySum)),
        ),
{
}

/// There is a shared secret for each scan key that has a share, and it is the share times the hash
/// over the inputs.
pub proof fn law_shared_secrets(psbt: Psbt, key_sum: Seq<u8>, scan_key: Seq<u8>)
    requires
        !hash_fails(psbt, key_sum),
    ensures
        shared_secrets(psbt, key_sum).contains_key(scan_key) <==> shares::total(
            psbt,
            scan_key,
        ) is Some,
        shares::total(psbt, scan_key) matches Some(total) ==> secp::point_times(
            total.share,
            hash::input_digest(psbt::outpoints(psbt.inputs@), key_sum),
        ) == Some(shared_secrets(psbt, key_sum)[scan_key]),
{
    if shares::total(psbt, scan_key) is Some {
        assert(total_secret(psbt, key_sum, scan_key) is Some);
    }
}

/// Where only some outputs are paid, each of the others is as before.
pub proof fn law_partly_paid(
    before: Seq<Output>,
    after: Seq<Output>,
    lists: Map<Seq<u8>, Seq<Seq<u8>>>,
    i: int,
)
    requires
        partly_paid(before, after, lists),
        0 <= i < before.len(),
    ensures
        after.len() == before.len(),
        after[i] != before[i] ==> pays_own_key(before, after[i], i, lists),
        extensions::sp_info(before[i]) is None ==> after[i] == before[i],
        before[i].script_pubkey@.len() > 0 ==> after[i] == before[i],
{
}

/// The scripts are open where no silent payment output has one.
pub proof fn law_scripts_open(outputs: Seq<Output>)
    ensures
        scripts_open(outputs) <==> !exists|i: int|
            {
                &&& 0 <= i < outputs.len()
                &&& extensions::sp_info(#[trigger] outputs[i]) is Some
                &&& outputs[i].script_pubkey@.len() > 0
            },
{
}

} // verus!
