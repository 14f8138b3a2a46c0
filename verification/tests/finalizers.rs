//! The finalizers of the silent payment outputs and of the input witnesses.

use bitcoin::hashes::Hash as _;
use bitcoin::ScriptBuf;
use secp256k1::{Message, Scalar, Secp256k1, SecretKey};
use spdk::address_map::AddressMap;
use spdk::bip375::error::{Error, ExtractionError, OtherError};
use spdk::bip375::extensions::Bip375PsbtExt;
use spdk::hash::OutPoint;
use spdk::psbt::{Global, Input, KeyOrigin, Output, PartialSig, Psbt, RawEntry, ScriptKey, TxOut};
use spdk::roles::constructor::{construct, ConstructorPsbtExt};
use spdk::roles::input_finalizer::{apply_recipient_keys, finalize_sp_outputs};
use spdk::roles::input_witness_finalizer::{clear_input_signing_fields, finalize_input_witnesses};
use spdk::script::is_p2tr;
use spdk::secp::PublicKey;
use spdk::sending::Network;

const NETWORK: Network = Network::Mainnet;

fn key(public: &secp256k1::PublicKey) -> PublicKey {
    PublicKey::from_bytes(public.serialize()).unwrap()
}

fn public(secret: &SecretKey) -> PublicKey {
    key(&secret.public_key(&Secp256k1::new()))
}

fn secret(byte: u8) -> SecretKey {
    SecretKey::from_slice(&[byte; 32]).unwrap()
}

fn p2wpkh(public: &PublicKey) -> Vec<u8> {
    let point = bitcoin::PublicKey::from_slice(&public.serialize()).unwrap();
    ScriptBuf::new_p2wpkh(&point.wpubkey_hash().unwrap()).to_bytes()
}

fn empty_input(vout: u32) -> Input {
    Input::new(&OutPoint { txid: [0; 32], vout })
}

/// A transaction with blank inputs and outputs.
fn create_psbt(inputs: u32, outputs: usize) -> Psbt {
    let blank = (0..outputs)
        .map(|_| Output::new(TxOut { value: 0, script_pubkey: vec![] }))
        .collect();
    let mut psbt = construct(blank);
    psbt.inputs = (0..inputs).map(empty_input).collect();
    psbt.global.input_count = inputs as usize;
    psbt
}

fn input(vout: u32, value: u64, script_pubkey: Vec<u8>) -> Input {
    let mut input = empty_input(vout);
    input.sequence = Some(u32::MAX);
    input.witness_utxo = Some(TxOut { value, script_pubkey });
    input
}

fn silent_payment(value: u64, scan: &PublicKey, spend: &PublicKey) -> Output {
    let mut output = Output::new(TxOut { value, script_pubkey: vec![] });
    output.sp_v0_info = Some([scan.serialize(), spend.serialize()].concat());
    output
}

/// Adds the share of an input for each scan key.
fn add_share(psbt: &mut Psbt, index: usize, secret: &SecretKey) {
    let secp = Secp256k1::new();
    for output in &psbt.outputs {
        if let Some(info) = &output.sp_v0_info {
            let scan = secp256k1::PublicKey::from_slice(&info[..33]).unwrap();
            let share = scan.mul_tweak(&secp, &Scalar::from(*secret)).unwrap();
            psbt.inputs[index].sp_ecdh_shares.insert(key(&scan), key(&share));
        }
    }
}

fn add_derivation(psbt: &mut Psbt, index: usize, public: PublicKey) {
    psbt.inputs[index].bip32_derivations.push(KeyOrigin {
        public_key: ScriptKey { compressed: true, inner: public },
        source: vec![0xAA, 0xBB, 0xCC, 0xDD, 0x2C, 0x00, 0x00, 0x80],
    });
}

/// Adds an ECDSA signature to an input.
fn sign_input(psbt: &mut Psbt, index: usize, secret: &SecretKey) {
    let secp = Secp256k1::new();
    let mut signature = secp.sign_ecdsa(&Message::from_digest([9; 32]), secret).serialize_der().to_vec();
    signature.push(1);
    psbt.inputs[index].partial_sigs.push(PartialSig {
        public_key: ScriptKey { compressed: true, inner: public(secret) },
        signature,
    });
}

#[test]
fn test_finalize_sp_outputs_basic() {
    let mut psbt = create_psbt(2, 1);
    let scan_key = public(&secret(10));
    let spend_key = public(&secret(20));
    psbt.outputs[0] = silent_payment(50000, &scan_key, &spend_key);

    let privkey1 = secret(1);
    let privkey2 = secret(2);
    psbt.inputs = vec![
        input(0, 30000, p2wpkh(&public(&privkey1))),
        input(1, 30000, p2wpkh(&public(&privkey2))),
    ];
    add_share(&mut psbt, 0, &privkey1);
    add_share(&mut psbt, 1, &privkey2);
    add_derivation(&mut psbt, 0, public(&privkey1));
    add_derivation(&mut psbt, 1, public(&privkey2));

    finalize_sp_outputs(&mut psbt, NETWORK).unwrap();

    let script = &psbt.outputs[0].script_pubkey;
    assert!(!script.is_empty());
    assert_eq!(script.len(), 34);
    assert!(is_p2tr(script));
    assert_eq!(script, &receiver_script(&psbt, &[privkey1, privkey2], &secret(10), &spend_key, 0));
}

/// The script that the receiver expects for a counter, from the secret scan key and the inputs.
fn receiver_script(
    psbt: &Psbt,
    inputs: &[SecretKey],
    scan: &SecretKey,
    spend: &PublicKey,
    k: u32,
) -> Vec<u8> {
    let secp = Secp256k1::new();
    let points: Vec<secp256k1::PublicKey> = inputs.iter().map(|s| s.public_key(&secp)).collect();
    let refs: Vec<&secp256k1::PublicKey> = points.iter().collect();
    let sum = secp256k1::PublicKey::combine_keys(&refs).unwrap();
    let mut outpoints: Vec<Vec<u8>> = psbt
        .inputs
        .iter()
        .map(|i| {
            let mut bytes = i.previous_txid.to_vec();
            bytes.extend_from_slice(&i.spent_output_index.to_le_bytes());
            bytes
        })
        .collect();
    outpoints.sort();
    let hash = tagged(b"BIP0352/Inputs", &[outpoints[0].as_slice(), &sum.serialize()].concat());
    let ecdh = sum
        .mul_tweak(&secp, &Scalar::from_be_bytes(hash).unwrap())
        .unwrap()
        .mul_tweak(&secp, &Scalar::from(*scan))
        .unwrap();
    let tweak =
        tagged(b"BIP0352/SharedSecret", &[ecdh.serialize().as_slice(), &k.to_be_bytes()].concat());
    let output = secp256k1::PublicKey::from_slice(&spend.serialize())
        .unwrap()
        .add_exp_tweak(&secp, &Scalar::from_be_bytes(tweak).unwrap())
        .unwrap();
    let mut script = vec![0x51, 0x20];
    script.extend_from_slice(&output.x_only_public_key().0.serialize());
    script
}

fn tagged(tag: &[u8], message: &[u8]) -> [u8; 32] {
    let tag = bitcoin::hashes::sha256::Hash::hash(tag).to_byte_array();
    let data = [tag.as_slice(), &tag, message].concat();
    bitcoin::hashes::sha256::Hash::hash(&data).to_byte_array()
}

#[test]
fn test_incomplete_ecdh_coverage() {
    let mut psbt = create_psbt(2, 1);
    let scan_key = public(&secret(10));
    let spend_key = public(&secret(20));
    psbt.outputs[0] = silent_payment(50000, &scan_key, &spend_key);

    add_share(&mut psbt, 0, &secret(10));

    let result = finalize_sp_outputs(&mut psbt, NETWORK);
    assert!(result.is_err());
    assert!(matches!(result, Err(Error::IncompleteEcdhCoverage(0))));
}

#[test]
fn test_tx_modifiable_flags_cleared_after_finalization() {
    let mut psbt = create_psbt(2, 1);
    let scan_key = public(&secret(10));
    let spend_key = public(&secret(20));

    let privkey1 = secret(1);
    let privkey2 = secret(2);
    psbt.inputs = vec![
        input(0, 30000, p2wpkh(&public(&privkey1))),
        input(1, 30000, p2wpkh(&public(&privkey2))),
    ];
    psbt.outputs[0] = silent_payment(55000, &scan_key, &spend_key);
    add_share(&mut psbt, 0, &privkey1);
    add_share(&mut psbt, 1, &privkey1);
    for index in 0..psbt.inputs.len() {
        add_derivation(&mut psbt, index, public(&privkey1));
    }
    assert_eq!(psbt.global.tx_modifiable_flags, 0x03);

    finalize_sp_outputs(&mut psbt, NETWORK).unwrap();

    assert_eq!(
        psbt.global.tx_modifiable_flags, 0x00,
        "tx_modifiable_flags should be 0x00 after finalization (BIP-370)"
    );
}

/// A transaction whose shares cover its input, with these outputs.
fn covered(outputs: Vec<Output>) -> Psbt {
    let mut psbt = create_psbt(1, 0);
    psbt.outputs = outputs;
    psbt.inputs = vec![input(0, 30000, p2wpkh(&public(&secret(1))))];
    add_share(&mut psbt, 0, &secret(1));
    add_derivation(&mut psbt, 0, public(&secret(1)));
    psbt
}

#[test]
fn outputs_to_one_scan_key_are_numbered() {
    let scan = public(&secret(10));
    let mut psbt = covered(vec![
        silent_payment(1, &scan, &public(&secret(20))),
        Output::new(TxOut { value: 7, script_pubkey: vec![1, 2, 3] }),
        silent_payment(2, &scan, &public(&secret(21))),
        silent_payment(3, &scan, &public(&secret(20))),
    ]);
    finalize_sp_outputs(&mut psbt, NETWORK).unwrap();
    let expect = |spend: u8, k: u32| {
        receiver_script(&psbt, &[secret(1)], &secret(10), &public(&secret(spend)), k)
    };
    assert_eq!(psbt.outputs[0].script_pubkey, expect(20, 0));
    assert_eq!(psbt.outputs[1].script_pubkey, vec![1, 2, 3]);
    assert_eq!(psbt.outputs[2].script_pubkey, expect(21, 1));
    assert_eq!(psbt.outputs[3].script_pubkey, expect(20, 2));
}

#[test]
fn a_script_is_not_overwritten() {
    let scan = public(&secret(10));
    let spend = public(&secret(20));
    let mut second = silent_payment(2, &scan, &spend);
    second.script_pubkey = vec![9];
    let mut psbt = covered(vec![silent_payment(1, &scan, &spend), second]);
    assert_eq!(
        finalize_sp_outputs(&mut psbt, NETWORK),
        Err(Error::Other(OtherError::OverwritingScript { output_index: 1 }))
    );
    assert_eq!(psbt.outputs[1].script_pubkey, vec![9]);
    assert_eq!(psbt.global.tx_modifiable_flags, 0x03);
}

#[test]
fn a_second_finalization_changes_nothing() {
    let scan = public(&secret(10));
    let spend = public(&secret(20));
    let mut psbt = covered(vec![silent_payment(1, &scan, &spend)]);
    finalize_sp_outputs(&mut psbt, NETWORK).unwrap();
    let finalized = psbt.clone();
    assert_eq!(
        finalize_sp_outputs(&mut psbt, NETWORK),
        Err(Error::Other(OtherError::OverwritingScript { output_index: 0 }))
    );
    assert_eq!(psbt, finalized);
}

#[test]
fn finalization_reports_what_is_missing() {
    let scan = public(&secret(10));
    let spend = public(&secret(20));

    let mut without_inputs = create_psbt(0, 0);
    assert_eq!(
        finalize_sp_outputs(&mut without_inputs, NETWORK),
        Err(Error::Other(OtherError::NoInputs))
    );

    let mut without_share = covered(vec![]);
    without_share.outputs.push(silent_payment(1, &scan, &spend));
    assert_eq!(
        finalize_sp_outputs(&mut without_share, NETWORK),
        Err(Error::Other(OtherError::MissingSharedSecret { scan_key: scan }))
    );

    let mut without_derivation = covered(vec![silent_payment(1, &scan, &spend)]);
    without_derivation.inputs[0].bip32_derivations.clear();
    assert_eq!(
        finalize_sp_outputs(&mut without_derivation, NETWORK),
        Err(Error::Other(OtherError::MissingDerivation { input: Some(0) }))
    );

    let mut no_sum = covered(vec![silent_payment(1, &scan, &spend)]);
    let share = *no_sum.inputs[0].sp_ecdh_shares.get(&scan).unwrap();
    let mut negative = share.serialize();
    negative[0] = 5 - negative[0];
    let mut opposite = no_sum.inputs[0].clone();
    opposite.sp_ecdh_shares.insert(scan, PublicKey::from_bytes(negative).unwrap());
    no_sum.inputs.push(opposite);
    assert!(matches!(finalize_sp_outputs(&mut no_sum, NETWORK), Err(Error::Crypto(_))));
}

#[test]
fn recipient_keys_have_to_match_the_outputs() {
    let scan = public(&secret(10));
    let spend = public(&secret(20));
    let psbt = covered(vec![silent_payment(1, &scan, &spend), silent_payment(2, &scan, &spend)]);
    let mut address = [0u8; 67];
    address[1..].copy_from_slice(psbt.outputs[0].sp_v0_info.as_ref().unwrap());

    let mut copy = psbt.clone();
    assert_eq!(
        apply_recipient_keys(&mut copy, &AddressMap::new()),
        Err(Error::Other(OtherError::AddressMismatch))
    );
    let mut keys: AddressMap<[u8; 32]> = AddressMap::new();
    keys.push(address, [1; 32]);
    assert_eq!(
        apply_recipient_keys(&mut copy, &keys),
        Err(Error::Other(OtherError::KeyCountMismatch))
    );
    assert_eq!(copy, psbt);
    keys.push(address, [2; 32]);
    let mut more = AddressMap::new();
    more.push(address, [1; 32]);
    more.push(address, [2; 32]);
    more.push([7; 67], [3; 32]);
    assert_eq!(
        apply_recipient_keys(&mut copy, &more),
        Err(Error::Other(OtherError::AddressMismatch))
    );
    assert_eq!(apply_recipient_keys(&mut copy, &keys), Ok(()));
    assert_eq!(copy.outputs[1].script_pubkey[2..], [2; 32]);
}

#[test]
fn test_finalize_p2wpkh_input_witnesses() {
    let mut psbt = create_psbt(1, 1);
    let privkey = secret(1);
    psbt.inputs = vec![input(0, 30000, p2wpkh(&public(&privkey)))];
    psbt.outputs = vec![Output::new(TxOut { value: 29000, script_pubkey: vec![] })];
    sign_input(&mut psbt, 0, &privkey);

    assert!(!psbt.get_input_partial_sigs(0).is_empty());
    assert!(psbt.inputs[0].final_script_witness.is_none());
    let signature = psbt.inputs[0].partial_sigs[0].signature.clone();

    finalize_input_witnesses(&mut psbt).unwrap();

    let witness = psbt.inputs[0].final_script_witness.as_ref().unwrap();
    assert_eq!(witness.len(), 2);
    assert_eq!(witness, &vec![signature, public(&privkey).serialize().to_vec()]);
    assert!(psbt.get_input_partial_sigs(0).is_empty());
}

#[test]
fn test_finalize_p2tr_input_witnesses() {
    let scan_key = public(&secret(10));
    let spend_key = public(&secret(20));
    let privkey = secret(1);

    let mut psbt = create_psbt(1, 1);
    psbt.inputs = vec![input(0, 50000, p2wpkh(&public(&privkey)))];
    psbt.outputs = vec![silent_payment(49000, &scan_key, &spend_key)];
    add_share(&mut psbt, 0, &secret(10));
    add_derivation(&mut psbt, 0, public(&privkey));
    finalize_sp_outputs(&mut psbt, NETWORK).unwrap();
    sign_input(&mut psbt, 0, &privkey);

    finalize_input_witnesses(&mut psbt).unwrap();

    let witness = psbt.inputs[0].final_script_witness.as_ref().unwrap();
    assert!(!witness.is_empty());
    assert!(psbt.inputs[0].tap_key_sig.is_none());
}

#[test]
fn test_finalize_clears_all_signing_fields() {
    let mut psbt = create_psbt(1, 1);
    let privkey = secret(1);
    psbt.inputs = vec![input(0, 30000, p2wpkh(&public(&privkey)))];
    psbt.outputs = vec![Output::new(TxOut { value: 29000, script_pubkey: vec![] })];
    sign_input(&mut psbt, 0, &privkey);
    let entry = RawEntry { key: vec![1], value: vec![2] };
    psbt.inputs[0].tap_internal_key = Some([1; 32]);
    psbt.inputs[0].tap_key_origins.push(entry.clone());
    psbt.inputs[0].musig2_participant_pubkeys.push(entry.clone());
    psbt.inputs[0].musig2_pub_nonces.push(entry.clone());
    psbt.inputs[0].musig2_partial_sigs.push(entry.clone());
    psbt.inputs[0].sp_spend_bip32_derivations.push(entry.clone());
    psbt.inputs[0].sp_tweak = Some([3; 32]);
    psbt.inputs[0].tap_scripts.push(entry.clone());

    finalize_input_witnesses(&mut psbt).unwrap();

    assert!(psbt.inputs[0].tap_key_sig.is_none());
    assert!(psbt.get_input_partial_sigs(0).is_empty());
    assert!(psbt.inputs[0].tap_internal_key.is_none());
    assert!(psbt.inputs[0].tap_key_origins.is_empty());
    assert!(psbt.inputs[0].bip32_derivations.is_empty());
    assert!(psbt.get_input_sp_tweak(0).is_none());
    assert!(psbt.inputs[0].musig2_participant_pubkeys.is_empty());
    assert!(psbt.inputs[0].musig2_pub_nonces.is_empty());
    assert!(psbt.inputs[0].musig2_partial_sigs.is_empty());
    assert!(psbt.inputs[0].sp_spend_bip32_derivations.is_empty());
    assert_eq!(psbt.inputs[0].tap_scripts, vec![entry]);

    assert_eq!(
        finalize_input_witnesses(&mut psbt),
        Err(Error::ExtractionFailed(ExtractionError::NoSignatures { input_index: 0 }))
    );
}

#[test]
fn test_finalize_fails_without_signatures() {
    let mut psbt = create_psbt(1, 1);
    psbt.inputs = vec![input(0, 30000, vec![])];
    psbt.outputs = vec![Output::new(TxOut { value: 29000, script_pubkey: vec![] })];

    let result = finalize_input_witnesses(&mut psbt);
    assert!(result.is_err());
    assert!(matches!(result, Err(Error::ExtractionFailed(_))));
}

#[test]
fn a_taproot_signature_is_the_whole_witness() {
    let mut psbt = create_psbt(2, 0);
    psbt.inputs[0].tap_key_sig = Some(vec![7; 64]);
    sign_input(&mut psbt, 0, &secret(1));
    sign_input(&mut psbt, 1, &secret(1));
    sign_input(&mut psbt, 1, &secret(2));
    assert_eq!(
        finalize_input_witnesses(&mut psbt),
        Err(Error::ExtractionFailed(ExtractionError::PartialSignatures {
            input_index: 1,
            count: 2
        }))
    );
    assert_eq!(psbt.inputs[0].final_script_witness, Some(vec![vec![7; 64]]));
    assert_eq!(psbt.inputs[0].tap_key_sig, Some(vec![7; 64]));

    psbt.inputs[1].partial_sigs.pop();
    finalize_input_witnesses(&mut psbt).unwrap();
    assert_eq!(psbt.inputs[0].final_script_witness, Some(vec![vec![7; 64]]));
    assert_eq!(psbt.inputs[0].tap_key_sig, None);
}

#[test]
fn clearing_needs_an_input() {
    let mut psbt = create_psbt(1, 0);
    assert_eq!(clear_input_signing_fields(&mut psbt, 1), Err(Error::InvalidInputIndex(1)));
    assert_eq!(clear_input_signing_fields(&mut psbt, 0), Ok(()));
}

#[test]
fn a_new_transaction_holds_the_outputs() {
    let outputs: Vec<Output> = (0..40u64)
        .map(|value| Output::new(TxOut { value, script_pubkey: vec![value as u8] }))
        .collect();
    let psbt = Psbt::create_new_transaction(outputs.clone()).unwrap();
    assert_eq!(psbt.global.output_count, 40);
    assert_eq!(psbt.global.tx_modifiable_flags, 3);
    assert_eq!(psbt.global.version, 2);
    assert_eq!(psbt.global.tx_version, 2);
    assert!(psbt.inputs.is_empty());
    let mut sorted = psbt.outputs.clone();
    sorted.sort_by_key(|output| output.amount);
    assert_eq!(sorted, outputs);
    let orders = (0..20).map(|_| Psbt::create_new_transaction(outputs.clone()).unwrap().outputs);
    assert!(orders.into_iter().any(|order| order != outputs));
    assert_eq!(construct(outputs.clone()).outputs, outputs);
    assert_eq!(Global::default().tx_modifiable_flags, 0);
}
