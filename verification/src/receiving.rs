//! What the receiver of a silent payment derives.

use vstd::prelude::*;
use crate::bip375::input_key;
use crate::bip375::secrets;
use crate::bip375::types;
use crate::bytes;
use crate::collected;
use crate::hash;
use crate::psbt;
use crate::roles::aggregation;
use crate::roles::output_scripts;
use crate::roles::payments;
use crate::roles::signer;
use crate::script;
use crate::secp;
use crate::sending;
use crate::wallet::spend;
use crate::bip375::error::Error;
use crate::hash::OutPoint;
use crate::psbt::{Input, Psbt};
use crate::roles::share_check::DleqVerdict;
use crate::wallet::spend::SpendError;

verus! {

/// The point of the secret key with this number.
pub open spec fn point_of(secret: nat) -> Seq<u8> {
    secp::public_point(bytes::be_bytes(secret, 32))
}

/// The points of secret keys.
pub open spec fn points_of(keys: Seq<nat>) -> Seq<Seq<u8>> {
    keys.map_values(|key: nat| point_of(key))
}

/// The number of a secret key.
pub open spec fn is_secret(n: nat) -> bool {
    0 < n < secp::curve_order()
}

/// The sum of numbers.
pub open spec fn total(numbers: Seq<nat>) -> nat
    decreases numbers.len(),
{
    if numbers.len() == 0 {
        0
    } else {
        total(numbers.drop_last()) + numbers.last()
    }
}

/// The curve order is prime as far as products go: no product of two secret keys is a multiple of
/// it.
pub open spec fn no_zero_products() -> bool {
    forall|a: nat, b: nat|
        is_secret(a) && is_secret(b) ==> #[trigger] (a * b) % secp::curve_order() != 0
}

/// The multiple of the point of a secret key is the point of the product.
pub open spec fn multiples_follow_numbers() -> bool {
    forall|secret: nat, scalar: Seq<u8>|
        is_secret(secret) && is_secret(bytes::be_value(scalar)) && scalar.len() == 32
            ==> #[trigger] secp::point_times(point_of(secret), scalar) == Some(
            point_of((secret * bytes::be_value(scalar)) % secp::curve_order()),
        )
}

/// The sum of the points of secret keys is the point of the sum, unless that is a multiple of the
/// curve order, or there are more points than are added at once.
pub open spec fn sums_follow_numbers() -> bool {
    forall|keys: Seq<nat>|
        0 < keys.len() <= i32::MAX && (forall|i: int|
            0 <= i < keys.len() ==> is_secret(#[trigger] keys[i])) && total(keys)
            % secp::curve_order() != 0 ==> #[trigger] secp::combined_points(points_of(keys))
            == Some(point_of(total(keys) % secp::curve_order()))
}

/// The shares of inputs for a scan key: the scan key times the inputs' secret keys.
pub open spec fn input_shares(keys: Seq<nat>, scan_secret: nat) -> Seq<Seq<u8>> {
    keys.map_values(
        |key: nat| secp::point_times(point_of(scan_secret), bytes::be_bytes(key, 32))->Some_0,
    )
}

/// The secret that the receiver derives: the sum of the inputs' public keys, times the hash over
/// the inputs, times the secret scan key.
pub open spec fn receiver_secret(
    scan_secret: nat,
    outpoints: Seq<OutPoint>,
    key_sum: Seq<u8>,
) -> Option<Seq<u8>> {
    match secrets::hash_applied(key_sum, outpoints, key_sum) {
        Some(tweak_data) => secp::point_times(tweak_data, bytes::be_bytes(scan_secret, 32)),
        None => None,
    }
}

/// The receiver derives the secret that the sender derives from the shares of the inputs, and so
/// finds the outputs: their keys come from that secret. This holds because points follow the
/// numbers of their secret keys.
pub proof fn law_receiver_finds_outputs(
    keys: Seq<nat>,
    scan_secret: nat,
    outpoints: Seq<OutPoint>,
    key_sum: Seq<u8>,
)
    requires
        no_zero_products(),
        multiples_follow_numbers(),
        sums_follow_numbers(),
        is_secret(scan_secret),
        0 < keys.len() <= i32::MAX,
        forall|i: int| 0 <= i < keys.len() ==> is_secret(#[trigger] keys[i]),
        total(keys) % secp::curve_order() != 0,
        secp::sum_points(points_of(keys)) == Some(key_sum),
        is_secret(bytes::be_value(hash::input_digest(outpoints, key_sum))),
        hash::input_digest(outpoints, key_sum).len() == 32,
    ensures
        secp::sum_points(input_shares(keys, scan_secret)) is Some,
        receiver_secret(scan_secret, outpoints, key_sum) is Some,
        secrets::hash_applied(
            secp::sum_points(input_shares(keys, scan_secret))->Some_0,
            outpoints,
            key_sum,
        ) == receiver_secret(scan_secret, outpoints, key_sum),
        forall|spend_key: Seq<u8>, k: nat|
            sending::output_key(
                secrets::hash_applied(
                    secp::sum_points(input_shares(keys, scan_secret))->Some_0,
                    outpoints,
                    key_sum,
                )->Some_0,
                spend_key,
                k,
            ) == #[trigger] sending::output_key(
                receiver_secret(scan_secret, outpoints, key_sum)->Some_0,
                spend_key,
                k,
            ),
{
    let n = secp::curve_order();
    let digest = hash::input_digest(outpoints, key_sum);
    let h = bytes::be_value(digest);
    let sum = total(keys) % n;
    let products = keys.map_values(|key: nat| (scan_secret * key) % n);
    assert forall|i: int| 0 <= i < keys.len() implies is_secret(#[trigger] products[i])
        && input_shares(keys, scan_secret)[i] == point_of(products[i]) by {
        let key = keys[i];
        assert(is_secret(key));
        let encoding = bytes::be_bytes(key, 32);
        lemma_encoding(key);
        assert((scan_secret * key) % n != 0);
        assert(secp::point_times(point_of(scan_secret), encoding) == Some(
            point_of((scan_secret * bytes::be_value(encoding)) % n),
        ));
    }
    assert(input_shares(keys, scan_secret) =~= points_of(products));
    assert(points_of(products).len() > 0);
    lemma_total_of_products(keys, scan_secret, products);
    vstd::arithmetic::div_mod::lemma_mul_mod_noop_right(
        scan_secret as int,
        total(keys) as int,
        n as int,
    );
    assert(total(products) % n == (scan_secret * sum) % n);
    assert((scan_secret * sum) % n != 0);
    let share_sum = (scan_secret * sum) % n;
    assert(secp::combined_points(points_of(products)) == Some(point_of(total(products) % n)));
    assert(secp::sum_points(points_of(keys)) == Some(point_of(sum)));

    // The sender's secret.
    assert(secp::point_times(point_of(share_sum), digest) == Some(
        point_of((share_sum * h) % n),
    ));
    // The receiver's secret.
    let hashed = (sum * h) % n;
    assert((sum * h) % n != 0);
    assert(secp::point_times(point_of(sum), digest) == Some(point_of(hashed)));
    let scan_bytes = bytes::be_bytes(scan_secret, 32);
    lemma_encoding(scan_secret);
    assert(secp::point_times(point_of(hashed), scan_bytes) == Some(
        point_of((hashed * bytes::be_value(scan_bytes)) % n),
    ));

    vstd::arithmetic::div_mod::lemma_mul_mod_noop_left(
        (scan_secret * sum) as int,
        h as int,
        n as int,
    );
    vstd::arithmetic::div_mod::lemma_mul_mod_noop_left(
        (sum * h) as int,
        scan_secret as int,
        n as int,
    );
    assert((scan_secret * sum) * h == (sum * h) * scan_secret) by (nonlinear_arith);
}

/// The numbers of the secret keys of the inputs that take part, where `secrets` has one number for
/// each input.
pub open spec fn taking_part(inputs: Seq<Input>, secrets: Seq<nat>) -> Seq<nat>
    decreases inputs.len(),
{
    if inputs.len() == 0 {
        Seq::empty()
    } else {
        let earlier = taking_part(inputs.drop_last(), secrets);
        if input_key::input_point(inputs.last()) is Some {
            earlier.push(secrets[inputs.len() - 1])
        } else {
            earlier
        }
    }
}

/// The keys of the inputs that take part are those of the secret keys, and their shares for the
/// scan key are the scan key times the secret keys.
pub open spec fn shares_are_honest(
    inputs: Seq<Input>,
    secrets: Seq<nat>,
    scan_secret: nat,
) -> bool {
    let scan_key = point_of(scan_secret);
    forall|j: int|
        0 <= j < inputs.len() ==> {
            let input = #[trigger] inputs[j];
            &&& input_key::input_key(input, Some(j as usize)) is Ok
            &&& input_key::input_point(input) matches Some(point) ==> {
                &&& is_secret(secrets[j])
                &&& point == point_of(secrets[j])
                &&& input.sp_ecdh_shares@.contains_key(scan_key)
                &&& secp::point_times(scan_key, bytes::be_bytes(secrets[j], 32)) == Some(
                    input.sp_ecdh_shares@[scan_key]@,
                )
            }
        }
}

/// The receiver finds the silent payment outputs that are derived from the shares of the inputs:
/// the secret of such an output is the one that the receiver derives, and the output's script pays
/// to the key that this secret, the receiver's spend key and the output's counter give.
pub proof fn law_receiver_finds_transaction_outputs(
    psbt: Psbt,
    secrets: Seq<nat>,
    scan_secret: nat,
    list: Seq<(Seq<u8>, Seq<u8>)>,
    i: int,
)
    requires
        no_zero_products(),
        multiples_follow_numbers(),
        sums_follow_numbers(),
        is_secret(scan_secret),
        shares_are_honest(psbt.inputs@, secrets, scan_secret),
        0 < taking_part(psbt.inputs@, secrets).len() <= i32::MAX,
        total(taking_part(psbt.inputs@, secrets)) % secp::curve_order() != 0,
        is_secret(bytes::be_value(transaction_digest(psbt, secrets))),
        transaction_digest(psbt, secrets).len() == 32,
        !psbt.global.sp_ecdh_shares@.contains_key(point_of(scan_secret)),
        payments::derived_keys(psbt) == Ok::<_, Error>(list),
        0 <= i < psbt.outputs@.len(),
        psbt.outputs@[i].sp_v0_info is Some,
        types::first_key(psbt.outputs@[i].sp_v0_info->Some_0@) == point_of(scan_secret),
    ensures
        receiver_secret(
            scan_secret,
            psbt::outpoints(psbt.inputs@),
            transaction_key_sum(psbt, secrets),
        ) matches Some(secret) && payments::output_secret(psbt, point_of(scan_secret)) == Ok::<
            _,
            Error,
        >(secret) && pays_with_secret(psbt, list, i, secret),
{
    let inputs = psbt.inputs@;
    let keys = taking_part(inputs, secrets);
    let scan_key = point_of(scan_secret);
    lemma_taking_part(inputs, secrets, scan_secret);
    assert(aggregation::all_share(inputs, scan_key));
    law_receiver_finds_outputs(
        keys,
        scan_secret,
        psbt::outpoints(inputs),
        transaction_key_sum(psbt, secrets),
    );
    lemma_pays_with_secret(psbt, list, i);
}

/// The receiver finds the silent payment outputs of a transaction that has a share recorded for the
/// scan key, as a single signer and the aggregation leave it: where that share is the secret that
/// the receiver derives, an output's script pays to the key that this secret, the receiver's spend
/// key and the output's counter give.
pub proof fn law_receiver_finds_recorded_outputs(
    psbt: Psbt,
    key_sum: Seq<u8>,
    scan_secret: nat,
    list: Seq<(Seq<u8>, Seq<u8>)>,
    i: int,
)
    requires
        psbt.global.sp_ecdh_shares@.contains_key(point_of(scan_secret)),
        receiver_secret(scan_secret, psbt::outpoints(psbt.inputs@), key_sum) == Some(
            psbt.global.sp_ecdh_shares@[point_of(scan_secret)]@,
        ),
        payments::derived_keys(psbt) == Ok::<_, Error>(list),
        0 <= i < psbt.outputs@.len(),
        psbt.outputs@[i].sp_v0_info is Some,
        types::first_key(psbt.outputs@[i].sp_v0_info->Some_0@) == point_of(scan_secret),
    ensures
        pays_with_secret(
            psbt,
            list,
            i,
            receiver_secret(scan_secret, psbt::outpoints(psbt.inputs@), key_sum)->Some_0,
        ),
{
    lemma_pays_with_secret(psbt, list, i);
}

/// What the aggregation records for a scan key is the secret that the receiver derives, where the
/// shares of the inputs are what they should be.
pub proof fn law_recorded_sums_are_the_receivers(
    psbt: Psbt,
    verdicts: Seq<DleqVerdict>,
    secrets: Seq<nat>,
    scan_secret: nat,
    pairs: Seq<(Seq<u8>, Seq<u8>)>,
    j: int,
)
    requires
        no_zero_products(),
        multiples_follow_numbers(),
        sums_follow_numbers(),
        is_secret(scan_secret),
        shares_are_honest(psbt.inputs@, secrets, scan_secret),
        taking_part(psbt.inputs@, secrets).len() <= i32::MAX,
        total(taking_part(psbt.inputs@, secrets)) % secp::curve_order() != 0,
        is_secret(bytes::be_value(transaction_digest(psbt, secrets))),
        transaction_digest(psbt, secrets).len() == 32,
        aggregation::aggregation(psbt, verdicts) == Ok::<_, Error>(pairs),
        0 <= j < pairs.len(),
        pairs[j].0 == point_of(scan_secret),
    ensures
        receiver_secret(
            scan_secret,
            psbt::outpoints(psbt.inputs@),
            transaction_key_sum(psbt, secrets),
        ) == Some(pairs[j].1),
{
    let inputs = psbt.inputs@;
    let keys = taking_part(inputs, secrets);
    lemma_taking_part(inputs, secrets, scan_secret);
    aggregation::lemma_secret(psbt, verdicts, j);
    assert(keys.len() > 0);
    law_receiver_finds_outputs(
        keys,
        scan_secret,
        psbt::outpoints(inputs),
        transaction_key_sum(psbt, secrets),
    );
}

/// The script that an output gets pays to the key that a secret, the output's spend key and its
/// counter give.
pub open spec fn pays_with_secret(
    psbt: Psbt,
    list: Seq<(Seq<u8>, Seq<u8>)>,
    i: int,
    secret: Seq<u8>,
) -> bool {
    let info = psbt.outputs@[i].sp_v0_info->Some_0@;
    let items = payments::output_payments(psbt);
    let k = sending::counter(collected::collected(items)->Ok_0, collected::rank(items, i) as int);
    &&& sending::output_key(secret, types::second_key(info), k) matches Some(key)
    &&& output_scripts::output_script(psbt.outputs@, i, sending::grouped(list)) == Ok::<_, Error>(
        Some(script::p2tr_script(key)),
    )
}

/// The script that an output gets comes from the secret of its scan key.
proof fn lemma_pays_with_secret(psbt: Psbt, list: Seq<(Seq<u8>, Seq<u8>)>, i: int)
    requires
        payments::derived_keys(psbt) == Ok::<_, Error>(list),
        0 <= i < psbt.outputs@.len(),
        psbt.outputs@[i].sp_v0_info is Some,
    ensures
        ({
            let info = psbt.outputs@[i].sp_v0_info->Some_0@;
            payments::output_secret(psbt, types::first_key(info)) matches Ok(secret)
                && pays_with_secret(psbt, list, i, secret)
        }),
{
    signer::law_derived_keys_can_be_set(psbt, list);
    let items = payments::output_payments(psbt);
    collected::lemma_values(items);
    assert(items[i] == payments::output_payment(psbt, i));
    assert(items[i] is Ok);
}

/// The sum of the public keys of the inputs that take part.
pub open spec fn transaction_key_sum(psbt: Psbt, secrets: Seq<nat>) -> Seq<u8> {
    secp::sum_points(points_of(taking_part(psbt.inputs@, secrets)))->Some_0
}

/// The hash over the inputs of a transaction.
pub open spec fn transaction_digest(psbt: Psbt, secrets: Seq<nat>) -> Seq<u8> {
    hash::input_digest(psbt::outpoints(psbt.inputs@), transaction_key_sum(psbt, secrets))
}

/// The keys and the shares of the inputs are those of the secret keys that take part.
proof fn lemma_taking_part(inputs: Seq<Input>, secrets: Seq<nat>, scan_secret: nat)
    requires
        shares_are_honest(inputs, secrets, scan_secret),
    ensures
        input_key::input_keys(inputs) == Ok::<_, Error>(points_of(taking_part(inputs, secrets))),
        aggregation::shares_for(inputs, point_of(scan_secret)) == input_shares(
            taking_part(inputs, secrets),
            scan_secret,
        ),
        forall|k: int|
            0 <= k < taking_part(inputs, secrets).len() ==> is_secret(
                #[trigger] taking_part(inputs, secrets)[k],
            ),
    decreases inputs.len(),
{
    let keys = taking_part(inputs, secrets);
    let scan_key = point_of(scan_secret);
    if inputs.len() == 0 {
        assert(points_of(keys) =~= Seq::empty());
        assert(input_shares(keys, scan_secret) =~= Seq::empty());
        assert(aggregation::shares_for(inputs, scan_key) =~= Seq::empty());
    } else {
        let rest = inputs.drop_last();
        let n = inputs.len() - 1;
        assert forall|j: int| 0 <= j < rest.len() implies #[trigger] rest[j] == inputs[j] by {
        }
        assert(shares_are_honest(rest, secrets, scan_secret));
        lemma_taking_part(rest, secrets, scan_secret);
        let before = taking_part(rest, secrets);
        assert(input_key::input_key_items(inputs).drop_last() =~= input_key::input_key_items(
            rest,
        ));
        assert(inputs[n] == inputs.last());
        if input_key::input_point(inputs[n]) is Some {
            assert(points_of(keys) =~= points_of(before).push(point_of(secrets[n])));
            assert(input_shares(keys, scan_secret) =~= input_shares(before, scan_secret).push(
                inputs[n].sp_ecdh_shares@[scan_key]@,
            ));
        }
    }
}

/// The encoding of a secret key has 32 bytes and encodes its number.
proof fn lemma_encoding(secret: nat)
    requires
        is_secret(secret),
    ensures
        bytes::be_bytes(secret, 32).len() == 32,
        bytes::be_value(bytes::be_bytes(secret, 32)) == secret,
{
    bytes::lemma_be_value_bound(secp::CURVE_ORDER@);
    bytes::lemma_be_bytes_value(secret, 32);
}

proof fn lemma_total_of_products(keys: Seq<nat>, factor: nat, products: Seq<nat>)
    requires
        products == keys.map_values(|key: nat| (factor * key) % secp::curve_order()),
        secp::curve_order() > 0,
    ensures
        total(products) % secp::curve_order() == (factor * total(keys)) % secp::curve_order(),
    decreases keys.len(),
{
    let n = secp::curve_order() as int;
    if keys.len() > 0 {
        let rest = keys.drop_last();
        let last = keys.last();
        assert(products.drop_last() =~= rest.map_values(|key: nat| (factor * key) % n as nat));
        lemma_total_of_products(rest, factor, products.drop_last());
        let before = total(products.drop_last()) as int;
        vstd::arithmetic::div_mod::lemma_add_mod_noop(
            before,
            ((factor * last) % n as nat) as int,
            n,
        );
        vstd::arithmetic::div_mod::lemma_mod_twice((factor * last) as int, n);
        vstd::arithmetic::div_mod::lemma_add_mod_noop(
            (factor * total(rest)) as int,
            (factor * last) as int,
            n,
        );
        assert(factor * (total(rest) + last) == factor * total(rest) + factor * last)
            by (nonlinear_arith);
    } else {
        assert(factor * 0 == 0) by (nonlinear_arith);
    }
}

/// The partial secret that the sender computes from the inputs' secret keys is what the receiver
/// works with: its point is the sum of the keys' points times the hash over the inputs, so that the
/// partial secret times the scan key is the secret that the receiver derives. It is so for any
/// number of keys, one among them.
///
/// The result is the sum of the keys' points.
pub proof fn law_partial_secret_is_the_receivers(
    keys: Seq<nat>,
    outpoints: Seq<OutPoint>,
    scan_secret: nat,
    partial: nat,
) -> (key_sum: Seq<u8>)
    requires
        no_zero_products(),
        multiples_follow_numbers(),
        sums_follow_numbers(),
        is_secret(scan_secret),
        0 < keys.len() <= i32::MAX,
        forall|i: int| 0 <= i < keys.len() ==> is_secret(#[trigger] keys[i]),
        spend::partial_secret(keys, outpoints) == Ok::<_, SpendError>(partial),
        forall|sum: Seq<u8>| (#[trigger] hash::input_digest(outpoints, sum)).len() == 32,
    ensures
        secp::combined_points(points_of(keys)) == Some(key_sum),
        secp::point_times(key_sum, hash::input_digest(outpoints, key_sum)) == Some(
            point_of(partial),
        ),
        secp::point_times(point_of(scan_secret), bytes::be_bytes(partial, 32)) is Some,
        secp::point_times(point_of(scan_secret), bytes::be_bytes(partial, 32)) == receiver_secret(
            scan_secret,
            outpoints,
            key_sum,
        ),
{
    let n = secp::curve_order();
    let plus = |sum: int, secret: nat| sum + secret;
    spend::law_partial_secret(keys, outpoints);
    lemma_total_is_fold(keys);
    let sum = total(keys) % n;
    assert(keys.take(keys.len() as int) =~= keys);
    assert(keys.take(keys.len() as int).fold_left(0int, plus) % n as int != 0);
    let key_sum = point_of(sum);
    assert(secp::combined_points(points_of(keys)) == Some(key_sum));
    let digest = hash::input_digest(outpoints, key_sum);
    let h = bytes::be_value(digest);
    assert(is_secret(h));
    assert(partial == (sum * h) % n);
    assert((sum * h) % n != 0);
    assert(secp::point_times(point_of(sum), digest) == Some(point_of((sum * h) % n)));
    let partial_bytes = bytes::be_bytes(partial, 32);
    lemma_encoding(partial);
    assert(secp::point_times(point_of(scan_secret), partial_bytes) == Some(
        point_of((scan_secret * bytes::be_value(partial_bytes)) % n),
    ));
    let scan_bytes = bytes::be_bytes(scan_secret, 32);
    lemma_encoding(scan_secret);
    assert(secp::point_times(point_of(partial), scan_bytes) == Some(
        point_of((partial * bytes::be_value(scan_bytes)) % n),
    ));
    assert(scan_secret * partial == partial * scan_secret) by (nonlinear_arith);
    key_sum
}

proof fn lemma_total_is_fold(numbers: Seq<nat>)
    ensures
        total(numbers) == numbers.fold_left(0int, |sum: int, secret: nat| sum + secret),
    decreases numbers.len(),
{
    reveal_with_fuel(Seq::fold_left, 2);
    if numbers.len() > 0 {
        lemma_total_is_fold(numbers.drop_last());
    }
}

} // verus!
