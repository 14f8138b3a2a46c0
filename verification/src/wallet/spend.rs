//! Spending silent payment outputs.

use vstd::prelude::*;
use crate::bytes;
use crate::hash;
use crate::roles::signatures;
use crate::secp;
use crate::hash::{checked_input_hash, OutPoint};
use crate::psbt::Psbt;
use crate::roles::signatures::{record_signatures, SpSignature};
use crate::secp::{PublicKey, Scalar, SecretKey};

verus! {

/// The key that a wallet's outputs are spent with, or only its public key.
#[derive(Clone, Copy, Debug, PartialEq, Eq)]
pub enum SpendKey {
    Secret(SecretKey),
    Public(PublicKey),
}

/// A silent payment wallet.
#[derive(Clone, Copy, Debug, PartialEq, Eq)]
pub struct SpClient {
    pub spend_key: SpendKey,
}

/// An output that a wallet has found to be its own.
#[derive(Clone, Debug, PartialEq, Eq)]
pub struct DiscoveredOutput {
    /// What is added to the spend key to spend the output.
    pub tweak: Scalar,
    /// The value in satoshis.
    pub value: u64,
    pub script_pubkey: Vec<u8>,
}

/// Why a wallet cannot spend.
#[derive(Clone, Copy, Debug, PartialEq, Eq)]
pub enum SpendError {
    /// The wallet has no secret spend key.
    NoSecretKey,
    /// The tweak of the output at this position takes the spend key to zero.
    Tweak(usize),
    /// There are no inputs.
    NoInputs,
    /// The secret keys add up to zero.
    KeySum,
    /// The hash over the inputs cannot be applied to the sum.
    InputHash,
}

/// The number of the secret key of a taproot output with a tweak: the sum of the spend key and the
/// tweak, or its negative, whichever has a point with an even y coordinate. `None` where the sum
/// is a multiple of the curve order.
pub open spec fn output_secret(spend_key: nat, tweak: nat) -> Option<nat> {
    let sum = (spend_key + tweak) % secp::curve_order();
    if sum == 0 {
        None
    } else {
        Some(secp::even_key_value(bytes::be_bytes(sum, 32)))
    }
}

/// The tweaks of outputs.
pub open spec fn tweaks(utxos: Seq<(OutPoint, DiscoveredOutput)>) -> Seq<nat> {
    utxos.map_values(|utxo: (OutPoint, DiscoveredOutput)| bytes::be_value(utxo.1.tweak@))
}

/// The outpoints of outputs.
pub open spec fn spent_outpoints(utxos: Seq<(OutPoint, DiscoveredOutput)>) -> Seq<OutPoint> {
    utxos.map_values(|utxo: (OutPoint, DiscoveredOutput)| utxo.0)
}

/// The position of the first tweak that takes the spend key to zero.
pub open spec fn first_bad_tweak(spend_key: nat, tweaks: Seq<nat>, i: int) -> bool {
    &&& 0 <= i < tweaks.len()
    &&& output_secret(spend_key, tweaks[i]) is None
    &&& forall|j: int| 0 <= j < i ==> output_secret(spend_key, #[trigger] tweaks[j]) is Some
}

/// No tweak takes the spend key to zero.
pub open spec fn good_tweaks(spend_key: nat, tweaks: Seq<nat>) -> bool {
    forall|i: int|
        0 <= i < tweaks.len() ==> output_secret(spend_key, #[trigger] tweaks[i]) is Some
}

/// The numbers of the secret keys of outputs.
pub open spec fn output_secrets(spend_key: nat, tweaks: Seq<nat>) -> Seq<nat> {
    tweaks.map_values(|tweak: nat| output_secret(spend_key, tweak)->Some_0)
}

/// The sum of secret keys modulo the curve order; `None` where there are none, or the sum of the
/// first ones is zero at some point.
pub open spec fn secret_sum(secrets: Seq<nat>) -> Option<nat>
    decreases secrets.len(),
{
    if secrets.len() == 0 {
        None
    } else if secrets.len() == 1 {
        Some(secrets[0])
    } else {
        match secret_sum(secrets.drop_last()) {
            Some(sum) => {
                let next = (sum + secrets.last()) % secp::curve_order();
                if next == 0 {
                    None
                } else {
                    Some(next)
                }
            },
            None => None,
        }
    }
}

/// The hash over inputs whose secret keys have this sum.
pub open spec fn secret_input_digest(outpoints: Seq<OutPoint>, sum: nat) -> Seq<u8> {
    hash::input_digest(outpoints, secp::public_point(bytes::be_bytes(sum, 32)))
}

/// The number of the partial secret of inputs: the sum of their secret keys, times the hash over
/// the inputs.
pub open spec fn partial_secret(secrets: Seq<nat>, outpoints: Seq<OutPoint>) -> Result<
    nat,
    SpendError,
> {
    if secrets.len() == 0 || outpoints.len() == 0 {
        Err(SpendError::NoInputs)
    } else {
        match secret_sum(secrets) {
            None => Err(SpendError::KeySum),
            Some(sum) => {
                let factor = bytes::be_value(secret_input_digest(outpoints, sum));
                if factor == 0 || factor >= secp::curve_order() {
                    Err(SpendError::InputHash)
                } else {
                    Ok((sum * factor) % secp::curve_order())
                }
            },
        }
    }
}

/// The numbers of secret keys.
pub open spec fn numbers(keys: Seq<SecretKey>) -> Seq<nat> {
    keys.map_values(|key: SecretKey| bytes::be_value(key@))
}

/// Computes the partial secret of inputs from their secret keys.
pub fn calculate_partial_secret(keys: &Vec<SecretKey>, outpoints: &Vec<OutPoint>) -> (res: Result<
    SecretKey,
    SpendError,
>)
    ensures
        match partial_secret(numbers(keys@), outpoints@) {
            Ok(value) => res matches Ok(secret) && bytes::be_value(secret@) == value,
            Err(error) => res == Err::<SecretKey, _>(error),
        },
{
    if keys.len() == 0 || outpoints.len() == 0 {
        return Err(SpendError::NoInputs);
    }
    let ghost values = numbers(keys@);
    let mut sum = keys[0];
    let mut i: usize = 1;
    assert(values.take(1)[0] == values[0]);
    while i < keys.len()
        invariant
            1 <= i <= keys@.len(),
            outpoints@.len() > 0,
            values == numbers(keys@),
            secret_sum(values.take(i as int)) == Some(bytes::be_value(sum@)),
        decreases keys@.len() - i,
    {
        assert(values.take(i + 1).drop_last() =~= values.take(i as int));
        let addend = keys[i].to_scalar();
        let Some(next) = sum.add_tweak(&addend) else {
            proof {
                lemma_no_sum(values, i + 1);
            }
            return Err(SpendError::KeySum);
        };
        sum = next;
        i += 1;
    }
    assert(values.take(i as int) =~= values);
    proof {
        secp::lemma_secret_bytes(sum);
    }
    match checked_input_hash(outpoints, sum.public_key()) {
        Ok(Some(factor)) => match sum.mul_tweak(&factor) {
            Some(secret) => Ok(secret),
            None => Err(SpendError::InputHash),
        },
        _ => Err(SpendError::InputHash),
    }
}

/// Where the first keys have no sum, all have none.
proof fn lemma_no_sum(secrets: Seq<nat>, n: int)
    requires
        0 < n <= secrets.len(),
        secret_sum(secrets.take(n)) is None,
    ensures
        secret_sum(secrets) is None,
    decreases secrets.len() - n,
{
    if n == secrets.len() {
        assert(secrets.take(n) =~= secrets);
    } else {
        assert(secrets.take(n + 1).drop_last() =~= secrets.take(n));
        lemma_no_sum(secrets, n + 1);
    }
}

impl SpClient {
    /// The spend key.
    pub fn get_spend_key(&self) -> (res: SpendKey)
        ensures
            res == self.spend_key,
    {
        self.spend_key
    }

    /// The secret spend key.
    pub fn try_get_secret_spend_key(&self) -> (res: Result<SecretKey, SpendError>)
        ensures
            match self.spend_key {
                SpendKey::Secret(key) => res == Ok::<_, SpendError>(key),
                SpendKey::Public(_) => res == Err::<SecretKey, _>(SpendError::NoSecretKey),
            },
    {
        match self.get_spend_key() {
            SpendKey::Secret(key) => Ok(key),
            SpendKey::Public(_) => Err(SpendError::NoSecretKey),
        }
    }

    /// Puts the signatures of the silent payment inputs into a transaction. Where signing failed,
    /// the transaction is given back as it is.
    pub fn sign_transaction(&self, psbt: Psbt, signed: Result<Vec<SpSignature>, String>) -> (res:
        Result<Psbt, SpendError>)
        requires
            signed matches Ok(sigs) ==> forall|i: int|
                0 <= i < sigs@.len() ==> (#[trigger] sigs@[i]).input_index < psbt.inputs@.len(),
        ensures
            self.spend_key is Public ==> res == Err::<Psbt, _>(SpendError::NoSecretKey),
            self.spend_key is Secret ==> match signed {
                Ok(sigs) => res matches Ok(after) && after.global == psbt.global && after.outputs
                    == psbt.outputs && signatures::signed(
                    psbt.inputs@,
                    after.inputs@,
                    sigs@,
                    sigs@.len() as int,
                ),
                Err(_) => res == Ok::<_, SpendError>(psbt),
            },
    {
        if let Err(error) = self.try_get_secret_spend_key() {
            return Err(error);
        }
        let mut psbt = psbt;
        if let Ok(sigs) = signed {
            let _keys = record_signatures(&mut psbt.inputs, &sigs);
        }
        Ok(psbt)
    }

    /// Computes the partial secret of the outputs that are spent.
    pub fn get_partial_secret_for_selected_utxos(
        &self,
        selected_utxos: &Vec<(OutPoint, DiscoveredOutput)>,
    ) -> (res: Result<SecretKey, SpendError>)
        ensures
            match self.spend_key {
                SpendKey::Public(_) => res == Err::<SecretKey, _>(SpendError::NoSecretKey),
                SpendKey::Secret(key) => {
                    let spend_key = bytes::be_value(key@);
                    let all_tweaks = tweaks(selected_utxos@);
                    if good_tweaks(spend_key, all_tweaks) {
                        match partial_secret(
                            output_secrets(spend_key, all_tweaks),
                            spent_outpoints(selected_utxos@),
                        ) {
                            Ok(value) => res matches Ok(secret) && bytes::be_value(secret@)
                                == value,
                            Err(error) => res == Err::<SecretKey, _>(error),
                        }
                    } else {
                        res matches Err(SpendError::Tweak(i)) && first_bad_tweak(
                            spend_key,
                            all_tweaks,
                            i as int,
                        )
                    }
                },
            },
    {
        let b_spend = match self.try_get_secret_spend_key() {
            Ok(key) => key,
            Err(error) => return Err(error),
        };
        let ghost spend_key = bytes::be_value(b_spend@);
        let ghost all_tweaks = tweaks(selected_utxos@);
        let ghost secrets = output_secrets(spend_key, all_tweaks);
        let mut outpoints: Vec<OutPoint> = Vec::new();
        let mut keys: Vec<SecretKey> = Vec::new();
        let mut i: usize = 0;
        assert(numbers(keys@) =~= secrets.take(0));
        while i < selected_utxos.len()
            invariant
                i <= selected_utxos@.len(),
                spend_key == bytes::be_value(b_spend@),
                self.spend_key == SpendKey::Secret(b_spend),
                all_tweaks == tweaks(selected_utxos@),
                secrets == output_secrets(spend_key, all_tweaks),
                forall|j: int|
                    0 <= j < i ==> output_secret(spend_key, #[trigger] all_tweaks[j]) is Some,
                numbers(keys@) == secrets.take(i as int),
                outpoints@ == spent_outpoints(selected_utxos@).take(i as int),
            decreases selected_utxos@.len() - i,
        {
            let (outpoint, output) = &selected_utxos[i];
            assert(all_tweaks[i as int] == bytes::be_value(output.tweak@));
            let Some(key) = b_spend.add_tweak(&output.tweak) else {
                assert(first_bad_tweak(spend_key, all_tweaks, i as int));
                assert(output_secret(spend_key, all_tweaks[i as int]) is None);
                return Err(SpendError::Tweak(i));
            };
            proof {
                secp::lemma_secret_bytes(key);
            }
            let even_key = key.with_even_point();
            let ghost before = numbers(keys@);
            keys.push(even_key);
            outpoints.push(*outpoint);
            i += 1;
            assert(numbers(keys@) =~= before.push(bytes::be_value(even_key@)));
            assert(numbers(keys@) =~= secrets.take(i as int));
            assert(outpoints@ =~= spent_outpoints(selected_utxos@).take(i as int));
        }
        assert(secrets.take(i as int) =~= secrets);
        assert(spent_outpoints(selected_utxos@).take(i as int) =~= spent_outpoints(
            selected_utxos@,
        ));
        calculate_partial_secret(&keys, &outpoints)
    }
}

/// The sum of the first keys is not zero at any point, and the sum of all is what they add up to
/// modulo the curve order; there is none exactly where the first keys add up to zero at some point.
proof fn lemma_secret_sum(secrets: Seq<nat>)
    requires
        secrets.len() > 0,
        forall|i: int|
            0 <= i < secrets.len() ==> 0 < (#[trigger] secrets[i]) < secp::curve_order(),
    ensures
        secret_sum(secrets) matches Some(sum) ==> sum == secrets.fold_left(
            0int,
            |sum: int, secret: nat| sum + secret,
        ) % secp::curve_order() as int,
        secret_sum(secrets) is None <==> exists|n: int|
            0 < n <= secrets.len() && (#[trigger] secrets.take(n)).fold_left(
                0int,
                |sum: int, secret: nat| sum + secret,
            ) % secp::curve_order() as int == 0,
    decreases secrets.len(),
{
    let plus = |sum: int, secret: nat| sum + secret;
    let order = secp::curve_order() as int;
    let all = secrets.len() as int;
    assert(secrets.take(all) =~= secrets);
    assert(order > 0);
    reveal_with_fuel(Seq::fold_left, 2);
    if secrets.len() == 1 {
        assert(secrets.drop_last() =~= Seq::empty());
        assert(secrets.last() == secrets[0]);
        assert(secrets.fold_left(0int, plus) == secrets[0]);
        vstd::arithmetic::div_mod::lemma_small_mod(secrets[0], order as nat);
        assert forall|n: int| 0 < n <= secrets.len() implies (#[trigger] secrets.take(
            n,
        )).fold_left(0int, plus) % order != 0 by {
            assert(n == all);
        }
    } else {
        let rest = secrets.drop_last();
        let last = secrets.last();
        assert forall|i: int| 0 <= i < rest.len() implies 0 < (#[trigger] rest[i]) < order by {
            assert(rest[i] == secrets[i]);
        }
        lemma_secret_sum(rest);
        let before = rest.fold_left(0int, plus);
        assert(secrets.fold_left(0int, plus) == before + last);
        vstd::arithmetic::div_mod::lemma_add_mod_noop(before, last as int, order);
        vstd::arithmetic::div_mod::lemma_small_mod(last, order as nat);
        if secret_sum(rest) is None {
            let n = choose|n: int|
                0 < n <= rest.len() && (#[trigger] rest.take(n)).fold_left(0int, plus) % order
                    == 0;
            assert(secrets.take(n) =~= rest.take(n));
            assert(secrets.take(n).fold_left(0int, plus) % order == 0);
        } else {
            assert forall|n: int| 0 < n <= rest.len() implies (#[trigger] secrets.take(
                n,
            )).fold_left(0int, plus) % order != 0 by {
                assert(secrets.take(n) =~= rest.take(n));
                assert(rest.take(n).fold_left(0int, plus) % order != 0);
            }
            if secret_sum(secrets) is None {
                assert(secrets.take(all).fold_left(0int, plus) % order == 0);
            }
        }
    }
}

/// The partial secret of inputs is the sum of their secret keys times the hash over the inputs,
/// modulo the curve order. It is so for any number of keys, one among them. There is none where
/// there are no keys or no outpoints, where the first keys add up to zero at some point, or where
/// the hash is zero or not below the curve order.
pub proof fn law_partial_secret(secrets: Seq<nat>, outpoints: Seq<OutPoint>)
    requires
        forall|i: int|
            0 <= i < secrets.len() ==> 0 < (#[trigger] secrets[i]) < secp::curve_order(),
    ensures
        ({
            let order = secp::curve_order() as int;
            let sum = secrets.fold_left(0int, |sum: int, secret: nat| sum + secret) % order;
            let digest = hash::input_digest(
                outpoints,
                secp::public_point(bytes::be_bytes(sum as nat, 32)),
            );
            let factor = bytes::be_value(digest) as int;
            let vanishes = exists|n: int|
                0 < n <= secrets.len() && (#[trigger] secrets.take(n)).fold_left(
                    0int,
                    |sum: int, secret: nat| sum + secret,
                ) % order == 0;
            partial_secret(secrets, outpoints) == (if secrets.len() == 0 || outpoints.len() == 0 {
                Err(SpendError::NoInputs)
            } else if vanishes {
                Err(SpendError::KeySum)
            } else if factor == 0 || factor >= order {
                Err(SpendError::InputHash)
            } else {
                Ok(((sum * factor) % order) as nat)
            })
        }),
{
    if secrets.len() > 0 {
        lemma_secret_sum(secrets);
    }
}

/// The secret key of an output with a tweak is the sum of the spend key and the tweak modulo the
/// curve order, or its negative where the point of that sum has an odd y coordinate, which shows in
/// the first byte of its encoding. There is none exactly where the sum is zero.
pub proof fn law_output_secret(spend_key: nat, tweak: nat)
    ensures
        ({
            let order = secp::curve_order();
            let sum = (spend_key + tweak) % order;
            let odd = secp::public_point(bytes::be_bytes(sum, 32))[0] == 3;
            &&& output_secret(spend_key, tweak) is None <==> sum == 0
            &&& output_secret(spend_key, tweak) matches Some(secret) ==> {
                &&& 0 < secret < order
                &&& odd ==> secret + sum == order
                &&& !odd ==> secret == sum
            }
        }),
{
    let sum = (spend_key + tweak) % secp::curve_order();
    secp::lemma_order();
    bytes::lemma_be_value_bound(secp::CURVE_ORDER@);
    bytes::lemma_be_bytes_value(sum, 32);
    if sum > 0 {
        secp::law_even_key(bytes::be_bytes(sum, 32));
    }
}

/// The spent outputs have each their own secret key and outpoint, in their order.
pub proof fn law_spent_outputs(
    spend_key: nat,
    utxos: Seq<(OutPoint, DiscoveredOutput)>,
    i: int,
)
    requires
        0 <= i < utxos.len(),
    ensures
        spent_outpoints(utxos).len() == utxos.len(),
        spent_outpoints(utxos)[i] == utxos[i].0,
        tweaks(utxos).len() == utxos.len(),
        tweaks(utxos)[i] == bytes::be_value(utxos[i].1.tweak@),
        output_secrets(spend_key, tweaks(utxos)).len() == utxos.len(),
        output_secret(spend_key, bytes::be_value(utxos[i].1.tweak@)) matches Some(secret)
            ==> output_secrets(spend_key, tweaks(utxos))[i] == secret,
{
}

/// The tweaks are good where none of them takes the spend key to zero modulo the curve order;
/// otherwise the first one that does is the one that is reported.
pub proof fn law_bad_tweaks(spend_key: nat, tweaks: Seq<nat>, i: int)
    ensures
        good_tweaks(spend_key, tweaks) <==> forall|j: int|
            0 <= j < tweaks.len() ==> (spend_key + #[trigger] tweaks[j]) % secp::curve_order()
                != 0,
        first_bad_tweak(spend_key, tweaks, i) <==> {
            &&& 0 <= i < tweaks.len()
            &&& (spend_key + tweaks[i]) % secp::curve_order() == 0
            &&& forall|j: int|
                0 <= j < i ==> (spend_key + #[trigger] tweaks[j]) % secp::curve_order() != 0
        },
{
    assert forall|j: int| #[trigger] output_secret(spend_key, tweaks[j]) is Some <==> (spend_key
        + tweaks[j]) % secp::curve_order() != 0 by {
        law_output_secret(spend_key, tweaks[j]);
    }
    if good_tweaks(spend_key, tweaks) {
        assert forall|j: int| 0 <= j < tweaks.len() implies (spend_key + #[trigger] tweaks[j])
            % secp::curve_order() != 0 by {
            assert(output_secret(spend_key, tweaks[j]) is Some);
        }
    }
    if first_bad_tweak(spend_key, tweaks, i) {
        assert forall|j: int| 0 <= j < i implies (spend_key + #[trigger] tweaks[j])
            % secp::curve_order() != 0 by {
            assert(output_secret(spend_key, tweaks[j]) is Some);
        }
    }
}

/// The numbers of secret keys are what their bytes stand for, the highest one first.
pub proof fn law_numbers(keys: Seq<SecretKey>, i: int)
    requires
        0 <= i < keys.len(),
    ensures
        numbers(keys).len() == keys.len(),
        numbers(keys)[i] == bytes::be_value(keys[i]@),
{
}

} // verus!
