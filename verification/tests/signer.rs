//! The signer role, from the shares of the inputs to the scripts of the outputs.

use bitcoin::hashes::Hash as _;
use bitcoin::key::TapTweak;
use bitcoin::sighash::{Prevouts, SighashCache};
use bitcoin::{Amount, ScriptBuf, Sequence, Txid, XOnlyPublicKey};
use secp256k1::{Message, Parity, Scalar, Secp256k1, SecretKey};
use spdk::bip375::error::{Error, FieldDataError, OtherError, PsbtStateError};
use spdk::bip375::utils::NUMS_H;
use spdk::address_map::AddressMap;
use spdk::hash::{calculate_input_hash, OutPoint};
use spdk::key_map::KeyMap;
use spdk::psbt::{DleqProof, Input, KeyOrigin, Output, Psbt, RawEntry, ScriptKey, TxOut};
use spdk::roles::constructor::ConstructorPsbtExt;
use spdk::roles::input_finalizer::finalize_sp_outputs;
use spdk::roles::share_check::{DleqOutcome, DleqVerdict};
use spdk::roles::signatures::SpSignature;
use spdk::roles::signer::{
    aggregate_spent_shares, extract_eligible_input_pubkey, SignerPsbtExt,
};
use spdk::script::is_p2tr;
use spdk::secp::PublicKey;
use spdk::sending::Network;

fn secp() -> Secp256k1<secp256k1::All> {
    Secp256k1::new()
}

fn sk(byte: u8) -> SecretKey {
    SecretKey::from_slice(&[byte; 32]).unwrap()
}

fn key(public: &secp256k1::PublicKey) -> PublicKey {
    PublicKey::from_bytes(public.serialize()).unwrap()
}

fn point(public: &PublicKey) -> secp256k1::PublicKey {
    secp256k1::PublicKey::from_slice(&public.serialize()).unwrap()
}

fn pk(secp: &Secp256k1<secp256k1::All>, byte: u8) -> PublicKey {
    key(&sk(byte).public_key(secp))
}

fn p2wpkh_script(secp: &Secp256k1<secp256k1::All>, secret: &SecretKey) -> Vec<u8> {
    let compressed = bitcoin::CompressedPublicKey(secret.public_key(secp));
    ScriptBuf::new_p2wpkh(&compressed.wpubkey_hash()).to_bytes()
}

fn p2tr_script(secp: &Secp256k1<secp256k1::All>, secret: &SecretKey) -> Vec<u8> {
    let (xonly, _) = secret.x_only_public_key(secp);
    ScriptBuf::new_p2tr(secp, xonly, None).to_bytes()
}

fn untweaked_p2tr_script(xonly: XOnlyPublicKey) -> Vec<u8> {
    ScriptBuf::new_p2tr_tweaked(xonly.dangerous_assume_tweaked()).to_bytes()
}

/// An output to the address with these keys, without a script.
fn sp_output(scan: &PublicKey, spend: &PublicKey) -> Output {
    let mut info = scan.serialize().to_vec();
    info.extend_from_slice(&spend.serialize());
    let mut output = Output::new(TxOut { value: 10_000, script_pubkey: vec![] });
    output.sp_v0_info = Some(info);
    output
}

fn derivation(public: PublicKey) -> KeyOrigin {
    KeyOrigin { public_key: ScriptKey { compressed: true, inner: public }, source: vec![0; 4] }
}

fn p2wpkh_input(secp: &Secp256k1<secp256k1::All>, outpoint: OutPoint, secret: &SecretKey) -> Input {
    let mut input = Input::new(&outpoint);
    input.sequence = Some(u32::MAX);
    input.witness_utxo =
        Some(TxOut { value: 20_000, script_pubkey: p2wpkh_script(secp, secret) });
    input.bip32_derivations.push(derivation(key(&secret.public_key(secp))));
    input
}

fn outpoint(vout: u32) -> OutPoint {
    OutPoint { txid: [0; 32], vout }
}

fn tweaked(spend_sk: &SecretKey, tweak: [u8; 32]) -> SecretKey {
    spend_sk.add_tweak(&Scalar::from_be_bytes(tweak).unwrap()).unwrap()
}

/// An input that spends a silent payment output.
fn sp_p2tr_input(
    secp: &Secp256k1<secp256k1::All>,
    outpoint: OutPoint,
    spend_sk: &SecretKey,
    tweak: [u8; 32],
) -> Input {
    let (xonly, _) = tweaked(spend_sk, tweak).x_only_public_key(secp);
    let mut input = Input::new(&outpoint);
    input.sequence = Some(u32::MAX);
    input.witness_utxo =
        Some(TxOut { value: 20_000, script_pubkey: untweaked_p2tr_script(xonly) });
    input.sp_tweak = Some(tweak);
    input.sp_spend_bip32_derivations.push(RawEntry {
        key: spend_sk.public_key(secp).serialize().to_vec(),
        value: vec![0; 4],
    });
    input
}

fn ineligible_input(outpoint: OutPoint, value: u64) -> Input {
    let mut input = Input::new(&outpoint);
    input.sequence = Some(u32::MAX);
    input.witness_utxo = Some(TxOut { value, script_pubkey: vec![] });
    input
}

fn add_inputs(psbt: &mut Psbt, inputs: Vec<Input>) {
    psbt.global.input_count += inputs.len();
    psbt.inputs.extend(inputs);
}

/// The secret key of an input that the owner of `secret` can spend, with an even point for taproot.
fn owned_key(
    secp: &Secp256k1<secp256k1::All>,
    input: &Input,
    secret: &SecretKey,
) -> Option<SecretKey> {
    let public = point(&extract_eligible_input_pubkey(input).unwrap()?);
    let candidate = match input.sp_tweak {
        Some(tweak) => {
            let key = tweaked(secret, tweak);
            if key.x_only_public_key(secp).1 == Parity::Odd {
                key.negate()
            } else {
                key
            }
        }
        None => *secret,
    };
    if candidate.public_key(secp) == public {
        Some(candidate)
    } else {
        None
    }
}

fn scan_keys(psbt: &Psbt) -> Vec<PublicKey> {
    psbt.outputs
        .iter()
        .filter_map(|output| output.sp_v0_info.as_ref())
        .map(|info| PublicKey::read_at(info, 0).unwrap())
        .collect()
}

fn scalar(secret: &SecretKey) -> Scalar {
    Scalar::from(*secret)
}

fn input_hash(psbt: &Psbt) -> (secp256k1::PublicKey, Scalar) {
    let points: Vec<secp256k1::PublicKey> = psbt
        .inputs
        .iter()
        .filter_map(|input| extract_eligible_input_pubkey(input).unwrap())
        .map(|public| point(&public))
        .collect();
    let refs: Vec<&secp256k1::PublicKey> = points.iter().collect();
    let sum = secp256k1::PublicKey::combine_keys(&refs).unwrap();
    let outpoints: Vec<OutPoint> = psbt.inputs.iter().map(|input| input.out_point()).collect();
    let hash = calculate_input_hash(&outpoints, key(&sum)).unwrap();
    (sum, Scalar::from_be_bytes(hash.to_be_bytes()).unwrap())
}

/// One party that owns all inputs adds a global share for each scan key.
fn single_signer_shares(secp: &Secp256k1<secp256k1::All>, psbt: &mut Psbt, secret: &SecretKey) {
    let mut sum: Option<SecretKey> = None;
    for input in &psbt.inputs {
        if let Some(own) = owned_key(secp, input, secret) {
            sum = Some(match sum {
                Some(sum) => sum.add_tweak(&scalar(&own)).unwrap(),
                None => own,
            });
        }
    }
    let sum = sum.unwrap();
    let (_, hash) = input_hash(psbt);
    for scan_key in scan_keys(psbt) {
        let share = point(&scan_key).mul_tweak(secp, &scalar(&sum)).unwrap();
        let share = share.mul_tweak(secp, &hash).unwrap();
        psbt.global.sp_ecdh_shares.insert(scan_key, key(&share));
        psbt.global.sp_dleq_proofs.insert(scan_key, DleqProof([1; 64]));
    }
}

/// A party adds shares to the inputs that it owns.
fn multi_signer_shares(secp: &Secp256k1<secp256k1::All>, psbt: &mut Psbt, secret: &SecretKey) {
    let keys = scan_keys(psbt);
    for input in psbt.inputs.iter_mut() {
        if let Some(own) = owned_key(secp, input, secret) {
            for scan_key in &keys {
                let share = point(scan_key).mul_tweak(secp, &scalar(&own)).unwrap();
                input.sp_ecdh_shares.insert(*scan_key, key(&share));
                input.sp_dleq_proofs.insert(*scan_key, DleqProof([2; 64]));
            }
        }
    }
}

/// The receiver, who knows the secret scan key, finds each silent payment output.
fn assert_receiver_scan_finds_outputs(
    secp: &Secp256k1<secp256k1::All>,
    psbt: &Psbt,
    scan_sk: &SecretKey,
    spend_pk: &PublicKey,
) {
    let (sum, hash) = input_hash(psbt);
    let secret = sum.mul_tweak(secp, &hash).unwrap().mul_tweak(secp, &scalar(scan_sk)).unwrap();
    let scripts: Vec<&Vec<u8>> = psbt
        .outputs
        .iter()
        .filter(|output| output.sp_v0_info.is_some())
        .map(|output| &output.script_pubkey)
        .collect();
    assert!(!scripts.is_empty());
    let tag = bitcoin::hashes::sha256::Hash::hash(b"BIP0352/SharedSecret").to_byte_array();
    let mut found: Vec<Vec<u8>> = Vec::new();
    for k in 0..scripts.len() as u32 {
        let mut data = [tag, tag].concat();
        data.extend_from_slice(&secret.serialize());
        data.extend_from_slice(&k.to_be_bytes());
        let tweak = bitcoin::hashes::sha256::Hash::hash(&data).to_byte_array();
        let output = point(spend_pk)
            .add_exp_tweak(secp, &Scalar::from_be_bytes(tweak).unwrap())
            .unwrap();
        found.push(untweaked_p2tr_script(output.x_only_public_key().0));
    }
    for script in scripts {
        assert!(is_p2tr(script), "SP output must be P2TR");
        assert!(found.contains(script), "receiver must find SP output");
    }
}

#[test]
fn test_single_signer_e2e() {
    let secp = secp();
    let spend_sk = sk(1);
    let scan_pk = pk(&secp, 2);
    let spend_pk = pk(&secp, 3);

    let mut psbt = Psbt::create_new_transaction(vec![sp_output(&scan_pk, &spend_pk)]).unwrap();
    add_inputs(&mut psbt, vec![p2wpkh_input(&secp, outpoint(0), &spend_sk)]);

    single_signer_shares(&secp, &mut psbt, &spend_sk);
    assert!(!psbt.global.sp_ecdh_shares.is_empty());
    assert!(!psbt.global.sp_dleq_proofs.is_empty());

    let xonly_map = psbt.compute_sp_outputs().unwrap();
    assert_eq!(xonly_map.len(), 1);

    psbt.set_sp_scriptpubkey(xonly_map).unwrap();

    let sp_out = psbt.outputs.iter().find(|o| o.sp_v0_info.is_some()).unwrap();
    assert!(is_p2tr(&sp_out.script_pubkey), "SP output must be a P2TR scriptPubKey");
    assert_eq!(psbt.global.tx_modifiable_flags, 0);

    let scan_sk = sk(2);
    assert_receiver_scan_finds_outputs(&secp, &psbt, &scan_sk, &spend_pk);
}

#[test]
fn test_single_signer_no_sp_outputs_is_noop() {
    let secp = secp();
    let spend_sk = sk(1);
    let regular_out =
        Output::new(TxOut { value: 9_000, script_pubkey: p2wpkh_script(&secp, &spend_sk) });

    let mut psbt = Psbt::create_new_transaction(vec![regular_out]).unwrap();
    add_inputs(&mut psbt, vec![p2wpkh_input(&secp, outpoint(0), &spend_sk)]);

    single_signer_shares(&secp, &mut psbt, &spend_sk);
    assert!(
        psbt.global.sp_ecdh_shares.is_empty(),
        "no shares expected when there are no SP outputs"
    );
    let before = psbt.clone();
    psbt.aggregate_ecdh_shares(&vec![]).unwrap();
    assert_eq!(psbt, before);
    assert_eq!(psbt.compute_sp_outputs().unwrap().len(), 0);
}

#[test]
fn test_two_outputs_same_scan_key_produce_distinct_keys() {
    let secp = secp();
    let spend_sk = sk(1);
    let scan_pk = pk(&secp, 2);
    let spend_pk = pk(&secp, 3);

    let mut psbt = Psbt::create_new_transaction(vec![
        sp_output(&scan_pk, &spend_pk),
        sp_output(&scan_pk, &spend_pk),
    ])
    .unwrap();
    add_inputs(&mut psbt, vec![p2wpkh_input(&secp, outpoint(0), &spend_sk)]);

    single_signer_shares(&secp, &mut psbt, &spend_sk);
    let xonly_map = psbt.compute_sp_outputs().unwrap();

    assert_eq!(xonly_map.len(), 1, "single address entry expected");
    let (_, keys) = xonly_map.at(0);
    assert_eq!(keys.len(), 2, "n=0 and n=1 keys must both be present");
    assert_ne!(keys[0], keys[1], "n=0 and n=1 must be distinct xonly keys");

    psbt.set_sp_scriptpubkey(xonly_map).unwrap();
    assert_receiver_scan_finds_outputs(&secp, &psbt, &sk(2), &spend_pk);
}

#[test]
fn test_two_outputs_different_scan_keys() {
    let secp = secp();
    let spend_sk = sk(1);
    let scan_pk_a = pk(&secp, 2);
    let scan_pk_b = pk(&secp, 4);
    let spend_pk = pk(&secp, 3);

    let mut psbt = Psbt::create_new_transaction(vec![
        sp_output(&scan_pk_a, &spend_pk),
        sp_output(&scan_pk_b, &spend_pk),
    ])
    .unwrap();
    add_inputs(&mut psbt, vec![p2wpkh_input(&secp, outpoint(0), &spend_sk)]);

    single_signer_shares(&secp, &mut psbt, &spend_sk);
    assert_eq!(psbt.global.sp_ecdh_shares.len(), 2, "one share per scan key");

    let xonly_map = psbt.compute_sp_outputs().unwrap();
    assert_eq!(xonly_map.len(), 2, "one map entry per distinct SP address");
    for i in 0..xonly_map.len() {
        assert_eq!(xonly_map.at(i).1.len(), 1);
    }
}

#[test]
fn test_multi_signer_share_generation_skips_non_eligible_input() {
    let secp = secp();
    let spend_sk = sk(1);
    let scan_pk = pk(&secp, 2);
    let spend_pk = pk(&secp, 3);

    let mut psbt = Psbt::create_new_transaction(vec![sp_output(&scan_pk, &spend_pk)]).unwrap();
    add_inputs(
        &mut psbt,
        vec![
            p2wpkh_input(&secp, outpoint(0), &spend_sk),
            ineligible_input(outpoint(1), 5_000),
        ],
    );

    multi_signer_shares(&secp, &mut psbt, &spend_sk);

    assert!(!psbt.inputs[0].sp_ecdh_shares.is_empty(), "eligible input must have a share");
    assert!(
        psbt.inputs[1].sp_ecdh_shares.is_empty(),
        "non-eligible input must not receive a share"
    );
    let checks = psbt.pending_dleq_checks();
    assert_eq!(checks.len(), 1);
    assert_eq!(checks[0].input_key, pk(&secp, 1));
    let checks = verdicts(&psbt, DleqOutcome::Valid);
    psbt.aggregate_ecdh_shares(&checks).unwrap();
    assert_eq!(psbt.global.sp_ecdh_shares.len(), 1);
}

#[test]
fn test_single_signer_ignores_non_eligible_input() {
    let secp = secp();
    let spend_sk = sk(1);
    let scan_pk = pk(&secp, 2);
    let spend_pk = pk(&secp, 3);

    let mut psbt = Psbt::create_new_transaction(vec![sp_output(&scan_pk, &spend_pk)]).unwrap();
    add_inputs(
        &mut psbt,
        vec![
            p2wpkh_input(&secp, outpoint(0), &spend_sk),
            ineligible_input(outpoint(1), 3_000),
        ],
    );

    single_signer_shares(&secp, &mut psbt, &spend_sk);
    let xonly_map = psbt.compute_sp_outputs().unwrap();
    assert_eq!(xonly_map.len(), 1);
    psbt.set_sp_scriptpubkey(xonly_map).unwrap();

    let sp_out = psbt.outputs.iter().find(|o| o.sp_v0_info.is_some()).unwrap();
    assert!(is_p2tr(&sp_out.script_pubkey));
}

#[test]
fn test_extract_p2wpkh_with_derivation_returns_pubkey() {
    let secp = secp();
    let secret = sk(1);
    let public = key(&secret.public_key(&secp));
    let mut input = Input::new(&outpoint(0));
    input.witness_utxo = Some(TxOut { value: 1_000, script_pubkey: p2wpkh_script(&secp, &secret) });
    input.bip32_derivations.push(derivation(public));

    let result = extract_eligible_input_pubkey(&input).unwrap();
    assert_eq!(result, Some(public));
}

#[test]
fn test_extract_p2wpkh_missing_derivation_errors() {
    let secp = secp();
    let secret = sk(1);
    let mut input = Input::new(&outpoint(0));
    input.witness_utxo = Some(TxOut { value: 1_000, script_pubkey: p2wpkh_script(&secp, &secret) });
    assert!(
        extract_eligible_input_pubkey(&input).is_err(),
        "must error when bip32_derivations is absent for a P2WPKH input"
    );
    assert_eq!(
        extract_eligible_input_pubkey(&input),
        Err(Error::Other(OtherError::MissingDerivation { input: None }))
    );
}

#[test]
fn test_extract_p2tr_nums_h_internal_key_returns_none() {
    let secp = secp();
    let secret = sk(1);
    let mut input = Input::new(&outpoint(0));
    input.witness_utxo = Some(TxOut { value: 1_000, script_pubkey: p2tr_script(&secp, &secret) });
    input.tap_internal_key = Some(XOnlyPublicKey::from_slice(&NUMS_H).unwrap().serialize());

    let result = extract_eligible_input_pubkey(&input).unwrap();
    assert!(result.is_none(), "NUMS_H internal key must mark the input as non-contributing");
}

#[test]
fn test_extract_non_eligible_script_returns_none() {
    let mut input = Input::new(&outpoint(0));
    input.witness_utxo = Some(TxOut { value: 0, script_pubkey: vec![] });

    let result = extract_eligible_input_pubkey(&input).unwrap();
    assert!(result.is_none());
}

#[test]
fn test_extract_p2sh_non_wpkh_redeem_returns_none() {
    let secp = secp();
    let secret = sk(1);
    let non_wpkh_redeem = p2tr_script(&secp, &secret);
    let p2sh_script =
        ScriptBuf::new_p2sh(&ScriptBuf::from_bytes(non_wpkh_redeem.clone()).script_hash());

    let mut input = Input::new(&outpoint(0));
    input.witness_utxo = Some(TxOut { value: 1_000, script_pubkey: p2sh_script.to_bytes() });
    input.redeem_script = Some(non_wpkh_redeem);

    let result = extract_eligible_input_pubkey(&input).unwrap();
    assert!(result.is_none(), "P2SH with non-P2WPKH redeem must be ineligible");
}

#[test]
fn test_extract_p2sh_missing_redeem_script_returns_none() {
    let secp = secp();
    let secret = sk(1);
    let p2wpkh = p2wpkh_script(&secp, &secret);
    let p2sh_script = ScriptBuf::new_p2sh(&ScriptBuf::from_bytes(p2wpkh).script_hash());

    let mut input = Input::new(&outpoint(0));
    input.witness_utxo = Some(TxOut { value: 1_000, script_pubkey: p2sh_script.to_bytes() });

    let result = extract_eligible_input_pubkey(&input).unwrap();
    assert!(result.is_none());
}

#[test]
fn test_multi_signer_compute_sp_outputs_with_non_eligible_input() {
    let secp = secp();
    let spend_sk = sk(1);
    let scan_pk = pk(&secp, 2);
    let spend_pk = pk(&secp, 3);

    let mut psbt = Psbt::create_new_transaction(vec![sp_output(&scan_pk, &spend_pk)]).unwrap();
    add_inputs(
        &mut psbt,
        vec![
            p2wpkh_input(&secp, outpoint(0), &spend_sk),
            ineligible_input(outpoint(1), 5_000),
        ],
    );

    multi_signer_shares(&secp, &mut psbt, &spend_sk);

    psbt.compute_sp_outputs().unwrap();
}

#[test]
fn test_extract_p2tr_sp_tweak_reads_output_key_from_prevout() {
    let secp = secp();
    let spend = sk(1);
    let (xonly, _) = tweaked(&spend, sk(2).secret_bytes()).x_only_public_key(&secp);

    let mut input = Input::new(&outpoint(0));
    input.witness_utxo = Some(TxOut { value: 1_000, script_pubkey: untweaked_p2tr_script(xonly) });
    input.sp_tweak = Some(sk(2).secret_bytes());
    input.sp_spend_bip32_derivations.push(RawEntry {
        key: spend.public_key(&secp).serialize().to_vec(),
        value: vec![0; 4],
    });

    let result = extract_eligible_input_pubkey(&input).unwrap();
    assert_eq!(result, Some(key(&xonly.public_key(Parity::Even))));
}

#[test]
fn test_extract_p2tr_sp_tweak_without_derivation_map() {
    let secp = secp();
    let (xonly, _) = tweaked(&sk(1), sk(2).secret_bytes()).x_only_public_key(&secp);

    let mut input = Input::new(&outpoint(0));
    input.witness_utxo = Some(TxOut { value: 1_000, script_pubkey: untweaked_p2tr_script(xonly) });
    input.sp_tweak = Some(sk(2).secret_bytes());

    let result = extract_eligible_input_pubkey(&input).unwrap();
    assert_eq!(result, Some(key(&xonly.public_key(Parity::Even))));
}

fn unsigned_tx(psbt: &Psbt) -> bitcoin::Transaction {
    bitcoin::Transaction {
        version: bitcoin::transaction::Version(psbt.global.tx_version as i32),
        lock_time: bitcoin::absolute::LockTime::from_consensus(
            psbt.global.fallback_lock_time.unwrap_or(0),
        ),
        input: psbt
            .inputs
            .iter()
            .map(|i| bitcoin::TxIn {
                previous_output: bitcoin::OutPoint::new(
                    Txid::from_byte_array(i.previous_txid),
                    i.spent_output_index,
                ),
                script_sig: ScriptBuf::new(),
                sequence: Sequence(i.sequence.unwrap_or(u32::MAX)),
                witness: bitcoin::Witness::new(),
            })
            .collect(),
        output: psbt
            .outputs
            .iter()
            .map(|o| bitcoin::TxOut {
                value: Amount::from_sat(o.amount),
                script_pubkey: ScriptBuf::from_bytes(o.script_pubkey.clone()),
            })
            .collect(),
    }
}

fn key_spend_sighash(psbt: &Psbt, index: usize) -> Message {
    let prevouts: Vec<bitcoin::TxOut> = psbt
        .inputs
        .iter()
        .map(|i| {
            let utxo = i.funding_utxo().unwrap();
            bitcoin::TxOut {
                value: Amount::from_sat(utxo.value),
                script_pubkey: ScriptBuf::from_bytes(utxo.script_pubkey.clone()),
            }
        })
        .collect();
    let tx = unsigned_tx(psbt);
    let sighash = SighashCache::new(&tx)
        .taproot_key_spend_signature_hash(
            index,
            &Prevouts::All(&prevouts),
            bitcoin::TapSighashType::Default,
        )
        .unwrap();
    Message::from(sighash)
}

fn sign(
    secp: &Secp256k1<secp256k1::All>,
    psbt: &Psbt,
    spend_sk: &SecretKey,
) -> Vec<SpSignature> {
    let mut signatures = Vec::new();
    for (i, input) in psbt.inputs.iter().enumerate() {
        if let Some(tweak) = input.sp_tweak {
            let pair = secp256k1::Keypair::from_secret_key(secp, &tweaked(spend_sk, tweak));
            let signature = secp.sign_schnorr_no_aux_rand(&key_spend_sighash(psbt, i), &pair);
            signatures.push(SpSignature {
                input_index: i,
                output_key: pair.x_only_public_key().0.serialize(),
                signature: signature.serialize().to_vec(),
            });
        }
    }
    signatures
}

#[test]
fn test_sign_sp_inputs_produces_valid_taproot_sig() {
    let secp = secp();
    let spend_sk = sk(1);
    let scan_pk = pk(&secp, 2);
    let spend_pk = pk(&secp, 3);
    let tweak_bytes = sk(7).secret_bytes();

    let mut psbt = Psbt::create_new_transaction(vec![sp_output(&scan_pk, &spend_pk)]).unwrap();
    add_inputs(&mut psbt, vec![sp_p2tr_input(&secp, outpoint(0), &spend_sk, tweak_bytes)]);

    let signed = sign(&secp, &psbt, &spend_sk);
    let signed_keys = psbt.sign_sp_inputs(Ok(signed)).unwrap();

    let (output_key, _) = tweaked(&spend_sk, tweak_bytes).x_only_public_key(&secp);
    assert_eq!(signed_keys, vec![output_key.serialize()]);

    let sig = psbt.inputs[0].tap_key_sig.clone().expect("tap_key_sig must be set after signing");
    secp.verify_schnorr(
        &secp256k1::schnorr::Signature::from_slice(&sig).unwrap(),
        &key_spend_sighash(&psbt, 0),
        &output_key,
    )
    .unwrap();
}

#[test]
fn failed_signing_leaves_the_transaction() {
    let secp = secp();
    let mut psbt =
        Psbt::create_new_transaction(vec![sp_output(&pk(&secp, 2), &pk(&secp, 3))]).unwrap();
    add_inputs(&mut psbt, vec![sp_p2tr_input(&secp, outpoint(0), &sk(1), [7; 32])]);
    let before = psbt.clone();
    assert_eq!(
        psbt.sign_sp_inputs(Err("no key".to_string())),
        Err(Error::Other(OtherError::Signing("no key".to_string())))
    );
    assert_eq!(psbt, before);
}

#[test]
fn test_single_signer_sp_input_receiver_can_scan() {
    let secp = secp();
    let input_spend_sk = sk(1);
    let scan_sk = sk(2);
    let scan_pk = key(&scan_sk.public_key(&secp));
    let spend_pk = pk(&secp, 3);
    let tweak_bytes = sk(7).secret_bytes();

    let mut psbt = Psbt::create_new_transaction(vec![sp_output(&scan_pk, &spend_pk)]).unwrap();
    add_inputs(&mut psbt, vec![sp_p2tr_input(&secp, outpoint(0), &input_spend_sk, tweak_bytes)]);

    single_signer_shares(&secp, &mut psbt, &input_spend_sk);
    let xonly_map = psbt.compute_sp_outputs().unwrap();
    psbt.set_sp_scriptpubkey(xonly_map).unwrap();

    assert_receiver_scan_finds_outputs(&secp, &psbt, &scan_sk, &spend_pk);
}

#[test]
fn test_multi_signer_two_parties_receiver_can_scan() {
    let secp = secp();
    let alice_sk = sk(1);
    let bob_sk = sk(4);
    let scan_sk = sk(2);
    let scan_pk = key(&scan_sk.public_key(&secp));
    let spend_pk = pk(&secp, 3);
    let bob_tweak = sk(8).secret_bytes();

    let base = {
        let mut psbt = Psbt::create_new_transaction(vec![sp_output(&scan_pk, &spend_pk)]).unwrap();
        add_inputs(
            &mut psbt,
            vec![
                p2wpkh_input(&secp, outpoint(0), &alice_sk),
                sp_p2tr_input(&secp, outpoint(1), &bob_sk, bob_tweak),
            ],
        );
        psbt
    };

    let mut psbt_alice = base.clone();
    multi_signer_shares(&secp, &mut psbt_alice, &alice_sk);
    let mut psbt_bob = base;
    multi_signer_shares(&secp, &mut psbt_bob, &bob_sk);

    assert!(!psbt_alice.inputs[0].sp_ecdh_shares.is_empty());
    assert!(psbt_alice.inputs[1].sp_ecdh_shares.is_empty());
    assert!(psbt_bob.inputs[0].sp_ecdh_shares.is_empty());
    assert!(!psbt_bob.inputs[1].sp_ecdh_shares.is_empty());

    psbt_alice.inputs[1].sp_ecdh_shares = psbt_bob.inputs[1].sp_ecdh_shares.clone();
    psbt_alice.inputs[1].sp_dleq_proofs = psbt_bob.inputs[1].sp_dleq_proofs.clone();

    let xonly_map = psbt_alice.compute_sp_outputs().unwrap();
    psbt_alice.set_sp_scriptpubkey(xonly_map).unwrap();

    assert_receiver_scan_finds_outputs(&secp, &psbt_alice, &scan_sk, &spend_pk);
}

/// Two inputs with shares of both parties, and one silent payment output.
fn shared_psbt(secp: &Secp256k1<secp256k1::All>) -> Psbt {
    let mut psbt =
        Psbt::create_new_transaction(vec![sp_output(&pk(secp, 2), &pk(secp, 3))]).unwrap();
    add_inputs(
        &mut psbt,
        vec![
            p2wpkh_input(secp, outpoint(0), &sk(1)),
            p2wpkh_input(secp, outpoint(1), &sk(4)),
        ],
    );
    multi_signer_shares(secp, &mut psbt, &sk(1));
    multi_signer_shares(secp, &mut psbt, &sk(4));
    psbt
}

fn verdicts(psbt: &Psbt, outcome: DleqOutcome) -> Vec<DleqVerdict> {
    psbt.pending_dleq_checks()
        .into_iter()
        .map(|statement| DleqVerdict { statement, outcome: outcome.clone() })
        .collect()
}

#[test]
fn aggregated_shares_give_the_same_outputs() {
    let secp = secp();
    let psbt = shared_psbt(&secp);
    let direct = psbt.compute_sp_outputs().unwrap();

    let mut aggregated = psbt.clone();
    let checks = verdicts(&psbt, DleqOutcome::Valid);
    assert_eq!(checks.len(), 2);
    assert_eq!(checks[0].statement.input_key, pk(&secp, 1));
    assert_eq!(checks[0].statement.scan_key, pk(&secp, 2));
    assert_eq!(checks[0].statement.proof, DleqProof([2; 64]));
    aggregated.aggregate_ecdh_shares(&checks).unwrap();
    assert_eq!(aggregated.global.sp_ecdh_shares.len(), 1);
    assert_eq!(aggregated.compute_sp_outputs().unwrap(), direct);

    let (_, hash) = input_hash(&psbt);
    let total = sk(1).add_tweak(&scalar(&sk(4))).unwrap();
    let expected = point(&pk(&secp, 2))
        .mul_tweak(&secp, &scalar(&total))
        .unwrap()
        .mul_tweak(&secp, &hash)
        .unwrap();
    assert_eq!(aggregated.global.sp_ecdh_shares.get(&pk(&secp, 2)), Some(&key(&expected)));

    aggregated.set_sp_scriptpubkey(direct).unwrap();
    assert_receiver_scan_finds_outputs(&secp, &aggregated, &sk(2), &pk(&secp, 3));
}

#[test]
fn aggregation_reports_what_is_wrong_with_a_share() {
    let secp = secp();
    let psbt = shared_psbt(&secp);
    let input_index = 0;
    let scan_key = pk(&secp, 2);
    let displayed = point(&scan_key).to_string();

    let run = |psbt: &Psbt, checks: &Vec<DleqVerdict>| {
        let mut copy = psbt.clone();
        let result = copy.aggregate_ecdh_shares(checks);
        assert_eq!(&copy, psbt);
        result
    };
    assert_eq!(
        run(&psbt, &verdicts(&psbt, DleqOutcome::Invalid)),
        Err(Error::Other(OtherError::InvalidProof { input_index, scan_key }))
    );
    assert_eq!(
        run(&psbt, &verdicts(&psbt, DleqOutcome::Failed("no point".to_string()))),
        Err(Error::Other(OtherError::DleqCheckFailed("no point".to_string())))
    );
    assert_eq!(
        run(&psbt, &vec![]),
        Err(Error::Other(OtherError::UncheckedProof { input_index, scan_key }))
    );

    let valid = verdicts(&psbt, DleqOutcome::Valid);
    let mut without_share = psbt.clone();
    without_share.inputs[1].sp_ecdh_shares = spdk::key_map::KeyMap::new();
    assert_eq!(
        run(&without_share, &valid),
        Err(Error::Other(OtherError::MissingInputShare { input_index: 1, scan_key }))
    );
    let mut without_proof = psbt.clone();
    without_proof.inputs[1].sp_dleq_proofs = spdk::key_map::KeyMap::new();
    assert_eq!(
        run(&without_proof, &valid),
        Err(Error::Other(OtherError::MissingInputProof { input_index: 1, scan_key }))
    );
    assert_eq!(
        run(&without_proof, &valid).unwrap_err().message(),
        format!("Input 1 missing DLEQ proof for scan key {}", displayed)
    );
    assert_eq!(
        run(&without_share, &valid).unwrap_err().message(),
        format!("Input 1 missing ECDH share for scan key {}", displayed)
    );
    let mut without_utxo = psbt.clone();
    without_utxo.inputs[0].witness_utxo = None;
    assert_eq!(
        run(&without_utxo, &valid),
        Err(Error::Other(OtherError::MissingFundingUtxo))
    );
    let mut without_derivation = psbt.clone();
    without_derivation.inputs[1].bip32_derivations.clear();
    assert_eq!(
        run(&without_derivation, &valid),
        Err(Error::Other(OtherError::MissingDerivation { input: Some(1) }))
    );
    let mut two_derivations = psbt.clone();
    two_derivations.inputs[1].bip32_derivations.push(derivation(pk(&secp, 9)));
    assert_eq!(
        run(&two_derivations, &valid),
        Err(Error::Other(OtherError::MultipleDerivations { input: Some(1) }))
    );
    let mut tweaked_wpkh = psbt.clone();
    tweaked_wpkh.inputs[1].sp_tweak = Some([1; 32]);
    assert_eq!(
        run(&tweaked_wpkh, &valid),
        Err(Error::Other(OtherError::SpInputNotTaproot { input: Some(1) }))
    );
}

#[test]
fn aggregation_without_participants_has_no_sum() {
    let secp = secp();
    let mut psbt =
        Psbt::create_new_transaction(vec![sp_output(&pk(&secp, 2), &pk(&secp, 3))]).unwrap();
    assert_eq!(aggregate_spent_shares(&mut psbt, &vec![]), None);
    add_inputs(&mut psbt, vec![ineligible_input(outpoint(0), 1)]);
    assert!(matches!(
        aggregate_spent_shares(&mut psbt, &vec![]),
        Some(Err(Error::Crypto(_)))
    ));
}

#[test]
fn aggregation_counts_each_share_once() {
    let secp = secp();
    let mut psbt = Psbt::create_new_transaction(vec![
        sp_output(&pk(&secp, 2), &pk(&secp, 3)),
        sp_output(&pk(&secp, 2), &pk(&secp, 3)),
    ])
    .unwrap();
    add_inputs(&mut psbt, vec![p2wpkh_input(&secp, outpoint(0), &sk(1))]);
    multi_signer_shares(&secp, &mut psbt, &sk(1));
    let checks = verdicts(&psbt, DleqOutcome::Valid);
    let direct = psbt.compute_sp_outputs().unwrap();
    psbt.aggregate_ecdh_shares(&checks).unwrap();

    let (_, hash) = input_hash(&psbt);
    let expected = point(&pk(&secp, 2))
        .mul_tweak(&secp, &scalar(&sk(1)))
        .unwrap()
        .mul_tweak(&secp, &hash)
        .unwrap();
    assert_eq!(psbt.global.sp_ecdh_shares.get(&pk(&secp, 2)), Some(&key(&expected)));

    let mut single = psbt.clone();
    single.global.sp_ecdh_shares = KeyMap::new();
    single.outputs.truncate(1);
    single.aggregate_ecdh_shares(&checks).unwrap();
    assert_eq!(single.global.sp_ecdh_shares, psbt.global.sp_ecdh_shares);

    let keys = psbt.compute_sp_outputs().unwrap();
    assert_eq!(keys, direct);
    psbt.set_sp_scriptpubkey(keys).unwrap();
    assert_ne!(psbt.outputs[0].script_pubkey, psbt.outputs[1].script_pubkey);
    assert_receiver_scan_finds_outputs(&secp, &psbt, &sk(2), &pk(&secp, 3));
}

#[test]
fn addresses_that_cannot_be_read_are_reported() {
    let secp = secp();
    let mut output = sp_output(&pk(&secp, 2), &pk(&secp, 3));
    output.sp_v0_info = Some(vec![2; 65]);
    let psbt = Psbt::create_new_transaction(vec![output]).unwrap();
    let length = FieldDataError::SpInfoLength { output_index: None, length: 65 };
    assert_eq!(psbt.compute_sp_outputs(), Err(Error::InvalidFieldData(length)));
    let length = FieldDataError::SpInfoLength { output_index: Some(0), length: 65 };
    assert_eq!(
        psbt.clone().aggregate_ecdh_shares(&vec![]),
        Err(Error::InvalidFieldData(length))
    );

    let mut malformed = psbt.clone();
    malformed.outputs[0].sp_v0_info = Some(vec![0; 66]);
    assert!(matches!(malformed.compute_sp_outputs(), Err(Error::Crypto(_))));
}

#[test]
fn a_missing_share_is_reported() {
    let secp = secp();
    let mut psbt =
        Psbt::create_new_transaction(vec![sp_output(&pk(&secp, 2), &pk(&secp, 3))]).unwrap();
    let missing = Error::InvalidPsbtState(PsbtStateError::MissingShare { scan_key: pk(&secp, 2) });
    assert_eq!(psbt.compute_sp_outputs(), Err(missing));
    add_inputs(&mut psbt, vec![p2wpkh_input(&secp, outpoint(0), &sk(1))]);
    let missing = Error::InvalidPsbtState(PsbtStateError::MissingShare { scan_key: pk(&secp, 2) });
    assert_eq!(psbt.compute_sp_outputs(), Err(missing));
}

#[test]
fn keys_have_to_fit_the_outputs() {
    let secp = secp();
    let scan = pk(&secp, 2);
    let spend = pk(&secp, 3);
    let psbt = Psbt::create_new_transaction(vec![
        sp_output(&scan, &spend),
        sp_output(&scan, &spend),
    ])
    .unwrap();
    let mut address = [0u8; 67];
    address[1..34].copy_from_slice(&scan.serialize());
    address[34..].copy_from_slice(&spend.serialize());
    let keys = |n: u8| {
        let mut map: AddressMap<[u8; 32]> = AddressMap::new();
        for i in 0..n {
            map.push(address, [i; 32]);
        }
        map
    };
    let set = |map: AddressMap<[u8; 32]>| {
        let mut copy = psbt.clone();
        let result = copy.set_sp_scriptpubkey(map);
        (result, copy)
    };

    let (result, after) = set(AddressMap::new());
    assert_eq!(
        result,
        Err(Error::InvalidPsbtState(PsbtStateError::UnknownAddress { address }))
    );
    assert_eq!(after, psbt);
    let (result, after) = set(keys(1));
    assert_eq!(result, Err(Error::Other(OtherError::NotEnoughKeys { output_index: 1 })));
    assert_eq!(after, psbt);
    let (result, after) = set(keys(3));
    assert_eq!(result, Err(Error::InvalidPsbtState(PsbtStateError::UnusedKeys)));
    assert_eq!(after, psbt);
    let (result, after) = set(keys(2));
    assert_eq!(result, Ok(()));
    assert_eq!(after.global.tx_modifiable_flags, 0);
    for i in 0..2u8 {
        let mut script = vec![0x51, 0x20];
        script.extend_from_slice(&[i; 32]);
        assert_eq!(after.outputs[i as usize].script_pubkey, script);
    }
}

#[test]
fn setting_the_scripts_does_not_change_the_keys() {
    let secp = secp();
    let mut psbt = shared_psbt(&secp);
    let keys = psbt.compute_sp_outputs().unwrap();
    let unset = psbt.clone();
    psbt.set_sp_scriptpubkey(keys).unwrap();
    assert_ne!(psbt, unset);
    assert_eq!(psbt.compute_sp_outputs().unwrap(), unset.compute_sp_outputs().unwrap());
}

#[test]
fn the_finalizer_derives_the_scripts_of_the_signer() {
    let secp = secp();
    let mut signed = shared_psbt(&secp);
    let mut finalized = signed.clone();
    let keys = signed.compute_sp_outputs().unwrap();
    signed.set_sp_scriptpubkey(keys).unwrap();
    finalize_sp_outputs(&mut finalized, Network::Regtest).unwrap();
    assert!(is_p2tr(&finalized.outputs[0].script_pubkey));
    assert_eq!(finalized.outputs[0].script_pubkey, signed.outputs[0].script_pubkey);
}

#[test]
fn the_shares_of_an_ineligible_input_are_not_counted() {
    let secp = secp();
    let mut psbt = shared_psbt(&secp);
    add_inputs(&mut psbt, vec![ineligible_input(outpoint(2), 500)]);
    let keys = psbt.compute_sp_outputs().unwrap();
    psbt.inputs[2].sp_ecdh_shares.insert(pk(&secp, 2), pk(&secp, 9));
    assert_eq!(psbt.compute_sp_outputs().unwrap(), keys);
}

#[test]
fn spend_derivations_do_not_change_the_key_of_an_input() {
    let secp = secp();
    let mut input = p2wpkh_input(&secp, outpoint(0), &sk(1));
    let before = extract_eligible_input_pubkey(&input).unwrap();
    input.sp_spend_bip32_derivations.push(RawEntry { key: vec![7; 33], value: vec![0; 4] });
    assert_eq!(before, Some(pk(&secp, 1)));
    assert_eq!(extract_eligible_input_pubkey(&input).unwrap(), before);
}
