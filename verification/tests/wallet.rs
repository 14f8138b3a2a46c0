//! Coin selection and spending.

use bdk_coin_select::{
    Candidate, ChangePolicy, CoinSelector, DrainWeights, Target, TargetFee, TargetOutputs,
};
use secp256k1::{Parity, Scalar, Secp256k1};
use spdk::hash::{calculate_input_hash, OutPoint};
use spdk::psbt::{Global, Input, Psbt, TxOut};
use spdk::roles::signatures::SpSignature;
use spdk::secp::{PublicKey, SecretKey};
use spdk::wallet::coin_select::{pick_utxos_for_fee_rate, settle, FeeRate, SelectionError};
use spdk::wallet::spend::{DiscoveredOutput, SpClient, SpendError, SpendKey};

fn outpoint(vout: u32) -> OutPoint {
    OutPoint { txid: [7; 32], vout }
}

fn taproot(value: u64) -> TxOut {
    let mut script_pubkey = vec![0x51, 0x20];
    script_pubkey.extend_from_slice(&[3; 32]);
    TxOut { value, script_pubkey }
}

fn utxos(values: &[u64]) -> Vec<(OutPoint, TxOut)> {
    values.iter().enumerate().map(|(i, value)| (outpoint(i as u32), taproot(*value))).collect()
}

const RATE: FeeRate = FeeRate { fee: 10, vbytes: 1 };

#[test]
fn the_first_outputs_that_suffice_are_chosen() {
    let selection =
        pick_utxos_for_fee_rate(utxos(&[5_000, 50_000, 70_000]), vec![taproot(20_000)], RATE)
            .unwrap();
    assert_eq!(selection.selected_utxos, vec![outpoint(0), outpoint(1)]);
    // 42 bytes for fixed fields and counts, 43 for each output, 57.5 for each input.
    let candidates: Vec<Candidate> =
        [5_000, 50_000, 70_000].iter().map(|v| Candidate::new_tr_keyspend(*v)).collect();
    let mut selector = CoinSelector::new(&candidates);
    let target = Target {
        fee: TargetFee::from_feerate(bdk_coin_select::FeeRate::from_sat_per_vb(10.0)),
        outputs: TargetOutputs::fund_outputs([(172, 20_000)]),
    };
    selector.select_until_target_met(target).unwrap();
    let change = selector.drain(target, ChangePolicy::min_value(DrainWeights::TR_KEYSPEND, 660));
    assert_eq!(selection.change, change.value);
    assert_eq!(selection.fee as i64, selector.fee(20_000, change.value));
    assert!(selection.change > 660);
    assert_eq!(55_000, 20_000 + selection.change + selection.fee);
}

#[test]
fn little_change_goes_to_the_fee() {
    let needed = {
        let picked =
            pick_utxos_for_fee_rate(utxos(&[100_000]), vec![taproot(20_000)], RATE).unwrap();
        20_000 + picked.fee
    };
    let picked =
        pick_utxos_for_fee_rate(utxos(&[needed + 660]), vec![taproot(20_000)], RATE).unwrap();
    assert_eq!((picked.change, picked.fee), (0, needed + 660 - 20_000));
    let picked =
        pick_utxos_for_fee_rate(utxos(&[needed + 661]), vec![taproot(20_000)], RATE).unwrap();
    assert_eq!((picked.change, picked.fee), (661, needed - 20_000));
}

#[test]
fn missing_funds_are_reported() {
    let without_change = {
        let enough = pick_utxos_for_fee_rate(utxos(&[21_500]), vec![taproot(20_000)], RATE).unwrap();
        assert_eq!(enough.change, 0);
        1_110
    };
    let error =
        pick_utxos_for_fee_rate(utxos(&[10_000]), vec![taproot(20_000)], RATE).unwrap_err();
    assert_eq!(error, SelectionError::InsufficientFunds { missing: 10_000 + without_change });
    assert_eq!(error.message(), "Insufficient funds. Missing 11110 sats.");
    assert_eq!(SelectionError::NotEnoughFunds.message(), "Not enough funds available");
}

#[test]
fn the_fee_is_what_is_left() {
    let available = utxos(&[1_000, 2_000, 4_000]);
    let settled = settle(&available, &vec![2, 0], 3_000, 1_500).unwrap();
    assert_eq!(settled.selected_utxos, vec![outpoint(2), outpoint(0)]);
    assert_eq!((settled.change, settled.fee), (1_500, 500));
    assert_eq!(settle(&available, &vec![0], 900, 101), Err(SelectionError::NotEnoughFunds));
    assert_eq!(settle(&available, &vec![0], 900, 100).unwrap().fee, 0);
}

fn client(byte: u8) -> SpClient {
    SpClient { spend_key: SpendKey::Secret(SecretKey::from_bytes([byte; 32]).unwrap()) }
}

fn discovered(tweak: [u8; 32]) -> DiscoveredOutput {
    DiscoveredOutput {
        tweak: spdk::secp::Scalar::from_be_bytes(tweak).unwrap(),
        value: 1,
        script_pubkey: vec![],
    }
}

#[test]
fn the_partial_secret_is_the_hashed_sum() {
    let secp = Secp256k1::new();
    let spend = secp256k1::SecretKey::from_slice(&[5; 32]).unwrap();
    let tweaks = [[1u8; 32], [2; 32], [3; 32], [4; 32]];
    let mut sum: Option<secp256k1::SecretKey> = None;
    let mut parities = vec![];
    for tweak in tweaks {
        let mut key = spend.add_tweak(&Scalar::from_be_bytes(tweak).unwrap()).unwrap();
        let parity = key.x_only_public_key(&secp).1;
        parities.push(parity);
        if parity == Parity::Odd {
            key = key.negate();
        }
        sum = Some(match sum {
            Some(sum) => sum.add_tweak(&Scalar::from(key)).unwrap(),
            None => key,
        });
    }
    assert!(parities.contains(&Parity::Odd) && parities.contains(&Parity::Even));
    let sum = sum.unwrap();
    let outpoints: Vec<OutPoint> = (0..4).map(|i| outpoint(300 - i)).collect();
    let key_sum = PublicKey::from_bytes(sum.public_key(&secp).serialize()).unwrap();
    let hash = calculate_input_hash(&outpoints, key_sum).unwrap();
    let expected = sum.mul_tweak(&Scalar::from_be_bytes(hash.to_be_bytes()).unwrap()).unwrap();

    let utxos: Vec<(OutPoint, DiscoveredOutput)> =
        outpoints.iter().copied().zip(tweaks.iter().map(|tweak| discovered(*tweak))).collect();
    let secret = client(5).get_partial_secret_for_selected_utxos(&utxos).unwrap();
    assert_eq!(secret.secret_bytes(), expected.secret_bytes());
}

#[test]
fn a_partial_secret_needs_keys() {
    let public = SpClient {
        spend_key: SpendKey::Public(SecretKey::from_bytes([5; 32]).unwrap().public_key()),
    };
    let utxos = vec![(outpoint(0), discovered([1; 32]))];
    assert_eq!(
        public.get_partial_secret_for_selected_utxos(&utxos),
        Err(SpendError::NoSecretKey)
    );
    assert_eq!(
        client(5).get_partial_secret_for_selected_utxos(&vec![]),
        Err(SpendError::NoInputs)
    );
    let negative = secp256k1::SecretKey::from_slice(&[5; 32]).unwrap().negate().secret_bytes();
    let utxos = vec![(outpoint(0), discovered([1; 32])), (outpoint(1), discovered(negative))];
    assert_eq!(
        client(5).get_partial_secret_for_selected_utxos(&utxos),
        Err(SpendError::Tweak(1))
    );
    let one = SecretKey::from_bytes([5; 32]).unwrap();
    let other = SecretKey::from_bytes(negative).unwrap();
    assert_eq!(
        spdk::wallet::spend::calculate_partial_secret(&vec![one, other], &vec![outpoint(0)]),
        Err(SpendError::KeySum)
    );
}

#[test]
fn a_transaction_is_signed() {
    let psbt = Psbt {
        global: Global::default(),
        inputs: vec![Input::new(&outpoint(0)), Input::new(&outpoint(1))],
        outputs: vec![],
    };
    let signature =
        SpSignature { input_index: 1, output_key: [1; 32], signature: vec![2; 64] };
    let signed = client(5).sign_transaction(psbt.clone(), Ok(vec![signature.clone()])).unwrap();
    assert_eq!(signed.inputs[0], psbt.inputs[0]);
    assert_eq!(signed.inputs[1].tap_key_sig, Some(vec![2; 64]));
    let failed = client(5).sign_transaction(psbt.clone(), Err("no".to_string())).unwrap();
    assert_eq!(failed, psbt);
    let public = SpClient {
        spend_key: SpendKey::Public(SecretKey::from_bytes([5; 32]).unwrap().public_key()),
    };
    assert_eq!(
        public.sign_transaction(psbt, Ok(vec![signature])),
        Err(SpendError::NoSecretKey)
    );
}
