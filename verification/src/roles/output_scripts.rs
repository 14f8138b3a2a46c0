//! The scripts of the silent payment outputs.

use vstd::prelude::*;
use crate::address_map;
use crate::collected;
use crate::roles::sp_outputs;
use crate::script;
use crate::sending;
use crate::address_map::AddressMap;
use crate::bip375::error::{Error, FieldDataError, OtherError, PsbtStateError};
use crate::psbt::{Global, Output, Psbt};
use crate::roles::sp_outputs::count_outputs_to;
use crate::script::new_p2tr_tweaked;
use crate::sending::address_from_info;

verus! {

/// The script of an output: for a silent payment, one that pays to the key of its address behind
/// those of the earlier outputs to the address. `None` for any other output.
pub open spec fn output_script(
    outputs: Seq<Output>,
    i: int,
    lists: Map<Seq<u8>, Seq<Seq<u8>>>,
) -> Result<Option<Seq<u8>>, Error> {
    match outputs[i].sp_v0_info {
        None => Ok(None),
        Some(info) => {
            let address = sending::address_bytes(info@);
            let place = sp_outputs::outputs_to(outputs, i, address) as int;
            if info@.len() != 66 {
                Err(
                    Error::InvalidFieldData(
                        FieldDataError::SpInfoLength {
                            output_index: None,
                            length: info@.len() as usize,
                        },
                    ),
                )
            } else if !lists.contains_key(address) {
                Err(
                    Error::InvalidPsbtState(
                        PsbtStateError::UnknownAddress {
                            address: address_map::address_of(address),
                        },
                    ),
                )
            } else if place >= lists[address].len() {
                Err(Error::Other(OtherError::NotEnoughKeys { output_index: i as usize }))
            } else {
                Ok(Some(script::p2tr_script(lists[address][place])))
            }
        },
    }
}

/// What `output_script` gives for each output.
pub open spec fn output_scripts(
    outputs: Seq<Output>,
    lists: Map<Seq<u8>, Seq<Seq<u8>>>,
) -> Seq<Result<Option<Seq<u8>>, Error>> {
    Seq::new(outputs.len(), |i: int| output_script(outputs, i, lists))
}

/// The outputs fail for no address of a wrong length: there is none, or they fail before it.
pub open spec fn addresses_readable(
    outputs: Seq<Output>,
    lists: Map<Seq<u8>, Seq<Seq<u8>>>,
) -> bool {
    !(collected::collected(output_scripts(outputs, lists)) matches Err(Error::InvalidFieldData(_)))
}

/// An address has more keys than outputs.
pub open spec fn keys_left(outputs: Seq<Output>, lists: Map<Seq<u8>, Seq<Seq<u8>>>) -> bool {
    exists|address: Seq<u8>| #[trigger]
        lists.contains_key(address) && sp_outputs::outputs_to(
            outputs,
            outputs.len() as int,
            address,
        ) < lists[address].len()
}

/// The silent payment outputs have their scripts, the transaction may not be modified any more, and
/// nothing else differs.
pub open spec fn scripts_set(
    before: Psbt,
    after: Psbt,
    lists: Map<Seq<u8>, Seq<Seq<u8>>>,
) -> bool {
    &&& after.global == (Global { tx_modifiable_flags: 0, ..before.global })
    &&& after.inputs == before.inputs
    &&& after.outputs@.len() == before.outputs@.len()
    &&& forall|i: int|
        0 <= i < before.outputs@.len() ==> match output_script(before.outputs@, i, lists) {
            Ok(Some(script)) => (#[trigger] after.outputs@[i]) == (Output {
                script_pubkey: after.outputs@[i].script_pubkey,
                ..before.outputs@[i]
            }) && after.outputs@[i].script_pubkey@ == script,
            _ => after.outputs@[i] == before.outputs@[i],
        }
}

/// A planned script is what `output_script` gives.
pub open spec fn planned(script: Option<Vec<u8>>, item: Result<Option<Seq<u8>>, Error>) -> bool {
    match script {
        Some(bytes) => item == Ok::<_, Error>(Some(bytes@)),
        None => item == Ok::<Option<Seq<u8>>, Error>(None),
    }
}

/// Plans the script of an output.
pub(crate) fn plan_script(
    outputs: &Vec<Output>,
    i: usize,
    keys: &AddressMap<[u8; 32]>,
) -> (res: Result<Option<Vec<u8>>, Error>)
    requires
        i < outputs@.len(),
        !(output_script(outputs@, i as int, sending::key_lists(keys@)) matches Err(
            Error::InvalidFieldData(_),
        )),
    ensures
        match res {
            Ok(script) => planned(
                script,
                output_script(outputs@, i as int, sending::key_lists(keys@)),
            ),
            Err(error) => output_script(outputs@, i as int, sending::key_lists(keys@)) == Err::<
                Option<Seq<u8>>,
                _,
            >(error),
        },
{
    let Some(info) = &outputs[i].sp_v0_info else {
        return Ok(None);
    };
    let address = address_from_info(info.as_slice());
    let Some(list) = keys.get(&address) else {
        proof {
            address_map::lemma_address_of(address);
        }
        return Err(Error::InvalidPsbtState(PsbtStateError::UnknownAddress { address }));
    };
    let place = count_outputs_to(outputs, i, &address);
    if place >= list.len() {
        return Err(Error::Other(OtherError::NotEnoughKeys { output_index: i }));
    }
    Ok(Some(new_p2tr_tweaked(&list[place])))
}

/// Plans the scripts of the outputs.
pub(crate) fn plan_scripts(outputs: &Vec<Output>, keys: &AddressMap<[u8; 32]>) -> (res: Result<
    Vec<Option<Vec<u8>>>,
    Error,
>)
    requires
        addresses_readable(outputs@, sending::key_lists(keys@)),
    ensures
        match res {
            Ok(scripts) => collected::collected(
                output_scripts(outputs@, sending::key_lists(keys@)),
            ) is Ok && scripts@.len() == outputs@.len() && forall|i: int|
                0 <= i < outputs@.len() ==> planned(
                    #[trigger] scripts@[i],
                    output_script(outputs@, i, sending::key_lists(keys@)),
                ),
            Err(error) => collected::collected(
                output_scripts(outputs@, sending::key_lists(keys@)),
            ) == Err::<Seq<Seq<u8>>, _>(error),
        },
{
    let ghost lists = sending::key_lists(keys@);
    let ghost items = output_scripts(outputs@, lists);
    let mut scripts: Vec<Option<Vec<u8>>> = Vec::new();
    let mut i: usize = 0;
    assert(items.take(0) =~= Seq::empty());
    while i < outputs.len()
        invariant
            i <= outputs@.len(),
            lists == sending::key_lists(keys@),
            items == output_scripts(outputs@, lists),
            addresses_readable(outputs@, lists),
            collected::collected(items.take(i as int)) is Ok,
            scripts@.len() == i,
            forall|j: int|
                0 <= j < i ==> planned(
                    #[trigger] scripts@[j],
                    output_script(outputs@, j, lists),
                ),
        decreases outputs@.len() - i,
    {
        proof {
            collected::lemma_step(items, i as int);
            if collected::collected(items.take(i + 1)) is Err {
                collected::lemma_failure(items, i + 1);
            }
        }
        match plan_script(outputs, i, keys) {
            Err(error) => return Err(error),
            Ok(script) => scripts.push(script),
        }
        i += 1;
    }
    assert(items.take(i as int) =~= items);
    Ok(scripts)
}

/// Whether an address has more keys than outputs.
pub(crate) fn check_keys_left(outputs: &Vec<Output>, keys: &AddressMap<[u8; 32]>) -> (res: bool)
    ensures
        res == keys_left(outputs@, sending::key_lists(keys@)),
{
    let ghost lists = sending::key_lists(keys@);
    let len = keys.len();
    let mut i: usize = 0;
    while i < len
        invariant
            i <= len,
            len == keys.addresses().len(),
            lists == sending::key_lists(keys@),
            forall|j: int|
                0 <= j < i ==> sp_outputs::outputs_to(
                    outputs@,
                    outputs@.len() as int,
                    #[trigger] keys.addresses()[j],
                ) >= lists[keys.addresses()[j]].len(),
        decreases len - i,
    {
        let (address, list) = keys.at(i);
        if count_outputs_to(outputs, outputs.len(), address) < list.len() {
            assert(lists.contains_key(address@));
            return true;
        }
        i += 1;
    }
    proof {
        assert forall|address: Seq<u8>| #[trigger]
            lists.contains_key(address) implies sp_outputs::outputs_to(
            outputs@,
            outputs@.len() as int,
            address,
        ) >= lists[address].len() by {
            assert(keys.addresses().contains(address));
            let j = choose|j: int|
                0 <= j < keys.addresses().len() && keys.addresses()[j] == address;
        }
    }
    false
}

/// The script of a silent payment output pays to the key of its address that stands behind those of
/// the earlier outputs with the same two keys. There is none where the address has not 66 bytes, has
/// no keys, or has too few; an output that is no silent payment needs none.
pub proof fn law_output_script(outputs: Seq<Output>, i: int, lists: Map<Seq<u8>, Seq<Seq<u8>>>)
    requires
        0 <= i < outputs.len(),
    ensures
        outputs[i].sp_v0_info is None ==> output_script(outputs, i, lists) == Ok::<
            Option<Seq<u8>>,
            Error,
        >(None),
        outputs[i].sp_v0_info matches Some(info) ==> {
            let keys = info@;
            let address = seq![0u8] + keys;
            let place = outputs.take(i).filter(
                |output: Output| output.sp_v0_info is Some && output.sp_v0_info->Some_0@ == keys,
            ).len();
            output_script(outputs, i, lists) == (if info@.len() != 66 {
                Err(
                    Error::InvalidFieldData(
                        FieldDataError::SpInfoLength {
                            output_index: None,
                            length: info@.len() as usize,
                        },
                    ),
                )
            } else if !lists.contains_key(address) {
                Err(
                    Error::InvalidPsbtState(
                        PsbtStateError::UnknownAddress {
                            address: address_map::address_of(address),
                        },
                    ),
                )
            } else if place < lists[address].len() {
                Ok(Some(seq![81u8, 32u8] + lists[address][place as int]))
            } else {
                Err(Error::Other(OtherError::NotEnoughKeys { output_index: i as usize }))
            })
        },
{
    if let Some(info) = outputs[i].sp_v0_info {
        sp_outputs::law_outputs_to_same_keys(outputs, i, info@);
    }
}

/// Keys are left where an address has more keys than outputs have it.
pub proof fn law_keys_are_left(
    outputs: Seq<Output>,
    lists: Map<Seq<u8>, Seq<Seq<u8>>>,
    address: Seq<u8>,
)
    requires
        lists.contains_key(address),
        outputs.filter(
            |output: Output|
                output.sp_v0_info is Some && seq![0u8] + output.sp_v0_info->Some_0@ == address,
        ).len() < lists[address].len(),
    ensures
        keys_left(outputs, lists),
{
    assert(outputs.take(outputs.len() as int) =~= outputs);
    sp_outputs::law_outputs_to(outputs, outputs.len() as int, address);
}

/// Where keys are left, there is an address with more keys than outputs have it.
pub proof fn law_left_keys(outputs: Seq<Output>, lists: Map<Seq<u8>, Seq<Seq<u8>>>) -> (address:
    Seq<u8>)
    requires
        keys_left(outputs, lists),
    ensures
        lists.contains_key(address),
        outputs.filter(
            |output: Output|
                output.sp_v0_info is Some && seq![0u8] + output.sp_v0_info->Some_0@ == address,
        ).len() < lists[address].len(),
{
    let address = choose|address: Seq<u8>| #[trigger]
        lists.contains_key(address) && sp_outputs::outputs_to(
            outputs,
            outputs.len() as int,
            address,
        ) < lists[address].len();
    assert(outputs.take(outputs.len() as int) =~= outputs);
    sp_outputs::law_outputs_to(outputs, outputs.len() as int, address);
    address
}

/// Setting the scripts gives each silent payment output its script, and changes nothing else but
/// that the transaction may not be modified any more.
pub proof fn law_scripts_set(
    before: Psbt,
    after: Psbt,
    lists: Map<Seq<u8>, Seq<Seq<u8>>>,
    i: int,
)
    requires
        scripts_set(before, after, lists),
        collected::collected(output_scripts(before.outputs@, lists)) is Ok,
        0 <= i < before.outputs@.len(),
    ensures
        after.global.tx_modifiable_flags == 0,
        after.global == (Global { tx_modifiable_flags: 0, ..before.global }),
        after.inputs == before.inputs,
        after.outputs@.len() == before.outputs@.len(),
        before.outputs@[i].sp_v0_info is None ==> after.outputs@[i] == before.outputs@[i],
        before.outputs@[i].sp_v0_info matches Some(info) ==> {
            let keys = info@;
            let place = before.outputs@.take(i).filter(
                |output: Output| output.sp_v0_info is Some && output.sp_v0_info->Some_0@ == keys,
            ).len();
            &&& lists.contains_key(seq![0u8] + info@)
            &&& place < lists[seq![0u8] + info@].len()
            &&& after.outputs@[i].script_pubkey@ == seq![81u8, 32u8] + lists[seq![0u8]
                + info@][place as int]
            &&& after.outputs@[i] == (Output {
                script_pubkey: after.outputs@[i].script_pubkey,
                ..before.outputs@[i]
            })
        },
{
    let items = output_scripts(before.outputs@, lists);
    collected::lemma_values(items);
    assert(items[i] == output_script(before.outputs@, i, lists));
    assert(items[i] is Ok);
    law_output_script(before.outputs@, i, lists);
    assert(match output_script(before.outputs@, i, lists) {
        Ok(Some(script)) => after.outputs@[i] == (Output {
            script_pubkey: after.outputs@[i].script_pubkey,
            ..before.outputs@[i]
        }) && after.outputs@[i].script_pubkey@ == script,
        _ => after.outputs@[i] == before.outputs@[i],
    });
}

/// The keys of addresses can be looked up wherever each silent payment output has an address of 66
/// bytes.
pub proof fn law_addresses_are_readable(
    outputs: Seq<Output>,
    lists: Map<Seq<u8>, Seq<Seq<u8>>>,
)
    requires
        forall|i: int|
            0 <= i < outputs.len() ==> ((#[trigger] outputs[i]).sp_v0_info matches Some(info)
                ==> info@.len() == 66),
    ensures
        addresses_readable(outputs, lists),
{
    let items = output_scripts(outputs, lists);
    if collected::collected(items) is Err {
        collected::lemma_failure_source(items);
        let i = choose|i: int|
            0 <= i < items.len() && #[trigger] items[i] == Err::<Option<Seq<u8>>, _>(
                collected::collected(items)->Err_0,
            );
        assert(items[i] == output_script(outputs, i, lists));
        assert(outputs[i].sp_v0_info matches Some(info) ==> info@.len() == 66);
    }
}

} // verus!
