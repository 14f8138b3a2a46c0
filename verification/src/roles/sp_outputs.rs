//! Where the keys of payments go among the outputs.

use vstd::prelude::*;
use crate::bip375::types;
use crate::collected;
use crate::sending;
use crate::bip375::error::Error;
use crate::bytes::bytes_equal;
use crate::psbt::Output;
use crate::sending::{address_from_info, Payment};

verus! {

/// The address of a silent payment output.
pub open spec fn output_address(output: Output) -> Option<Seq<u8>> {
    match output.sp_v0_info {
        Some(info) => Some(sending::address_bytes(info@)),
        None => None,
    }
}

/// How many of the first `n` outputs pay to an address.
pub open spec fn outputs_to(outputs: Seq<Output>, n: int, address: Seq<u8>) -> nat
    decreases n,
{
    if n <= 0 {
        0
    } else if output_address(outputs[n - 1]) == Some(address) {
        outputs_to(outputs, n - 1, address) + 1
    } else {
        outputs_to(outputs, n - 1, address)
    }
}

/// Whether an output pays to an address.
pub fn pays_to(output: &Output, address: &[u8; 67]) -> (res: bool)
    ensures
        res == (output_address(*output) == Some(address@)),
{
    match &output.sp_v0_info {
        Some(info) => {
            if info.len() != 66 {
                assert(sending::address_bytes(info@).len() != 67);
                return false;
            }
            let own = address_from_info(info.as_slice());
            bytes_equal(&own, address)
        },
        None => false,
    }
}

/// Counts the outputs that pay to an address, among the first `n`.
pub fn count_outputs_to(outputs: &Vec<Output>, n: usize, address: &[u8; 67]) -> (res: usize)
    requires
        n <= outputs@.len(),
    ensures
        res == outputs_to(outputs@, n as int, address@),
{
    let mut count: usize = 0;
    let mut i: usize = 0;
    while i < n
        invariant
            i <= n <= outputs@.len(),
            count == outputs_to(outputs@, i as int, address@),
            count <= i,
        decreases n - i,
    {
        if pays_to(&outputs[i], address) {
            count += 1;
        }
        i += 1;
    }
    count
}

/// An output makes a payment.
pub open spec fn makes_payment(item: Result<Option<Payment>, Error>) -> bool {
    item matches Ok(Some(_))
}

/// `items` says for each output which payment it makes; outputs to one address make a payment all
/// of them, or none.
pub open spec fn describes(
    items: Seq<Result<Option<Payment>, Error>>,
    outputs: Seq<Output>,
) -> bool {
    &&& items.len() == outputs.len()
    &&& forall|i: int|
        0 <= i < items.len() ==> ((#[trigger] items[i]) matches Ok(Some(payment))
            ==> output_address(outputs[i]) == Some(sending::address_bytes(payment.info)))
    &&& forall|i: int, j: int|
        0 <= i < items.len() && 0 <= j < items.len() && makes_payment(#[trigger] items[i])
            && output_address(outputs[i]) == output_address(outputs[j]) ==> makes_payment(
            #[trigger] items[j],
        )
}

/// The entries of an address in the list of keys are as many as the outputs to it.
proof fn lemma_entries(
    items: Seq<Result<Option<Payment>, Error>>,
    outputs: Seq<Output>,
    payments: Seq<Payment>,
    list: Seq<(Seq<u8>, Seq<u8>)>,
    n: int,
    address: Seq<u8>,
)
    requires
        describes(items, outputs),
        collected::collected(items) == Ok::<_, Error>(payments),
        sending::recipient_keys(payments) == Ok::<_, Error>(list),
        0 <= n <= items.len(),
        forall|j: int|
            0 <= j < items.len() && output_address(outputs[j]) == Some(address) ==> makes_payment(
                #[trigger] items[j],
            ),
    ensures
        sending::entries_of(list, collected::rank(items, n) as int, address) == outputs_to(
            outputs,
            n,
            address,
        ),
    decreases n,
{
    if n > 0 {
        lemma_entries(items, outputs, payments, list, n - 1, address);
        collected::lemma_values(items);
        sending::lemma_recipient_keys(payments);
        let item = items[n - 1];
        if let Ok(Some(payment)) = item {
            assert(items[n - 1]->Ok_0 is Some);
            let r = collected::rank(items, n - 1) as int;
            assert(payments[r] == payment);
            assert(list[r].0 == sending::address_bytes(payment.info));
        } else {
            assert(output_address(outputs[n - 1]) != Some(address));
        }
    }
}

/// An address with keys is the address of an output.
proof fn lemma_address_has_output(
    items: Seq<Result<Option<Payment>, Error>>,
    outputs: Seq<Output>,
    payments: Seq<Payment>,
    list: Seq<(Seq<u8>, Seq<u8>)>,
    n: int,
    address: Seq<u8>,
)
    requires
        describes(items, outputs),
        collected::collected(items) == Ok::<_, Error>(payments),
        sending::recipient_keys(payments) == Ok::<_, Error>(list),
        0 <= n <= items.len(),
        sending::entries_of(list, collected::rank(items, n) as int, address) > 0,
    ensures
        exists|i: int|
            0 <= i < n && makes_payment(#[trigger] items[i]) && output_address(outputs[i])
                == Some(address),
    decreases n,
{
    collected::lemma_values(items);
    sending::lemma_recipient_keys(payments);
    let item = items[n - 1];
    if let Ok(Some(payment)) = item {
        assert(items[n - 1]->Ok_0 is Some);
        let r = collected::rank(items, n - 1) as int;
        assert(payments[r] == payment);
        assert(list[r].0 == sending::address_bytes(payment.info));
        if list[r].0 != address {
            lemma_address_has_output(items, outputs, payments, list, n - 1, address);
        }
    } else {
        lemma_address_has_output(items, outputs, payments, list, n - 1, address);
    }
}

/// Grouped by address, the keys of the payments lie ready for the outputs in order: the addresses
/// are those of the outputs that make a payment, each has as many keys as outputs, and an output
/// finds its own key behind those of the earlier outputs to its address.
pub proof fn law_keys_fit_outputs(
    items: Seq<Result<Option<Payment>, Error>>,
    outputs: Seq<Output>,
    payments: Seq<Payment>,
    list: Seq<(Seq<u8>, Seq<u8>)>,
)
    requires
        describes(items, outputs),
        collected::collected(items) == Ok::<_, Error>(payments),
        sending::recipient_keys(payments) == Ok::<_, Error>(list),
    ensures
        forall|address: Seq<u8>| #[trigger]
            sending::grouped(list).contains_key(address) <==> exists|i: int|
                0 <= i < items.len() && makes_payment(#[trigger] items[i])
                    && output_address(outputs[i]) == Some(address),
        forall|address: Seq<u8>| #[trigger]
            sending::grouped(list).contains_key(address) ==> sending::grouped(list)[address].len()
                == outputs_to(outputs, outputs.len() as int, address),
        forall|i: int|
            0 <= i < items.len() ==> ((#[trigger] items[i]) matches Ok(Some(payment)) ==> {
                let address = sending::address_bytes(payment.info);
                let place = outputs_to(outputs, i, address) as int;
                &&& place < sending::grouped(list)[address].len()
                &&& sending::output_key(
                    payment.secret,
                    types::second_key(payment.info),
                    sending::counter(payments, collected::rank(items, i) as int),
                ) == Some(sending::grouped(list)[address][place])
            }),
{
    let n = items.len() as int;
    let lists = sending::grouped(list);
    sending::law_grouped(list);
    collected::lemma_values(items);
    sending::lemma_recipient_keys(payments);
    assert(collected::rank(items, n) == list.len());
    assert forall|address: Seq<u8>| #[trigger] lists.contains_key(address) <==> exists|i: int|
        0 <= i < items.len() && makes_payment(#[trigger] items[i]) && output_address(
            outputs[i],
        ) == Some(address) by {
        if lists.contains_key(address) {
            lemma_address_has_output(items, outputs, payments, list, n, address);
        }
        if exists|i: int|
            0 <= i < items.len() && makes_payment(#[trigger] items[i]) && output_address(
                outputs[i],
            ) == Some(address) {
            let i = choose|i: int|
                0 <= i < items.len() && makes_payment(#[trigger] items[i])
                    && output_address(outputs[i]) == Some(address);
            assert(items[i]->Ok_0 is Some);
            let r = collected::rank(items, i) as int;
            assert(lists.contains_key(list[r].0));
        }
    }
    assert forall|address: Seq<u8>| #[trigger] lists.contains_key(address) implies
        lists[address].len() == outputs_to(outputs, outputs.len() as int, address) by {
        let i = choose|i: int|
            0 <= i < items.len() && makes_payment(#[trigger] items[i]) && output_address(
                outputs[i],
            ) == Some(address);
        lemma_entries(items, outputs, payments, list, n, address);
    }
    assert forall|i: int| 0 <= i < items.len() implies ((#[trigger] items[i]) matches Ok(
        Some(payment),
    ) ==> {
        let address = sending::address_bytes(payment.info);
        let place = outputs_to(outputs, i, address) as int;
        &&& place < lists[address].len()
        &&& sending::output_key(
            payment.secret,
            types::second_key(payment.info),
            sending::counter(payments, collected::rank(items, i) as int),
        ) == Some(lists[address][place])
    }) by {
        if let Ok(Some(payment)) = items[i] {
            assert(items[i]->Ok_0 is Some);
            let address = sending::address_bytes(payment.info);
            let r = collected::rank(items, i) as int;
            assert(payments[r] == payment);
            lemma_entries(items, outputs, payments, list, i, address);
            assert(list[r].0 == address);
            assert(sending::output_key(
                payment.secret,
                types::second_key(payment.info),
                sending::counter(payments, r),
            ) == Some(list[r].1));
        }
    }
}

/// The outputs to an address are counted among the outputs themselves: those whose address, a zero
/// byte and the two keys, it is.
pub proof fn law_outputs_to(outputs: Seq<Output>, n: int, address: Seq<u8>)
    requires
        0 <= n <= outputs.len(),
    ensures
        outputs_to(outputs, n, address) == outputs.take(n).filter(
            |output: Output|
                output.sp_v0_info is Some && seq![0u8] + output.sp_v0_info->Some_0@ == address,
        ).len(),
    decreases n,
{
    reveal(Seq::filter);
    if n > 0 {
        law_outputs_to(outputs, n - 1, address);
        assert(outputs.take(n).drop_last() =~= outputs.take(n - 1));
        assert(outputs.take(n).last() == outputs[n - 1]);
    }
}

/// The outputs to the address of an output are those with the same two keys.
pub proof fn law_outputs_to_same_keys(outputs: Seq<Output>, n: int, info: Seq<u8>)
    requires
        0 <= n <= outputs.len(),
    ensures
        outputs_to(outputs, n, seq![0u8] + info) == outputs.take(n).filter(
            |output: Output| output.sp_v0_info is Some && output.sp_v0_info->Some_0@ == info,
        ).len(),
    decreases n,
{
    reveal(Seq::filter);
    if n > 0 {
        law_outputs_to_same_keys(outputs, n - 1, info);
        assert(outputs.take(n).drop_last() =~= outputs.take(n - 1));
        assert(outputs.take(n).last() == outputs[n - 1]);
        if let Some(own) = outputs[n - 1].sp_v0_info {
            if seq![0u8] + own@ == seq![0u8] + info {
                assert(own@ =~= (seq![0u8] + own@).skip(1));
                assert(info =~= (seq![0u8] + info).skip(1));
            }
        }
    }
}

/// The counter of an output's payment is the number of earlier outputs that make a payment to its
/// scan key.
pub proof fn lemma_counter_among_outputs(
    items: Seq<Result<Option<Payment>, Error>>,
    outputs: Seq<Output>,
    payments: Seq<Payment>,
    n: int,
    scan_key: Seq<u8>,
    pays: spec_fn(Output) -> bool,
)
    requires
        items.len() == outputs.len(),
        collected::collected(items) == Ok::<_, Error>(payments),
        0 <= n <= outputs.len(),
        forall|i: int|
            0 <= i < items.len() ==> pays(outputs[i]) == ((#[trigger] items[i]) matches Ok(
                Some(payment),
            ) && payment.info.subrange(0, 33) == scan_key),
    ensures
        sending::payments_to(payments, collected::rank(items, n) as int, scan_key) == outputs.take(
            n,
        ).filter(pays).len(),
    decreases n,
{
    reveal(Seq::filter);
    if n > 0 {
        lemma_counter_among_outputs(items, outputs, payments, n - 1, scan_key, pays);
        assert(outputs.take(n).drop_last() =~= outputs.take(n - 1));
        assert(outputs.take(n).last() == outputs[n - 1]);
        collected::lemma_values(items);
        assert(items[n - 1] is Ok);
        if let Ok(Some(payment)) = items[n - 1] {
            assert(items[n - 1]->Ok_0 is Some);
            assert(payments[collected::rank(items, n - 1) as int] == payment);
        }
    }
}

} // verus!
