//! The listed fields are those that a serialized transaction holds, in the same order.

use bitcoin::hashes::Hash as _;
use bitcoin::{absolute, Amount, CompressedPublicKey, ScriptBuf, Sequence, Txid, Witness};
use secp256k1::{Message, Secp256k1, SecretKey};
use spdk::bip375::fields::{GlobalFieldsExt, InputFieldsExt, OutputFieldsExt};
use spdk::hash::OutPoint;
use spdk::psbt::{
    DleqProof, Global, Input, KeyOrigin, Output, PartialSig, RawEntry, RawPair, ScriptKey,
    Transaction, TxOut,
};
use spdk::secp::PublicKey;

type Fields = Vec<(u64, Vec<u8>, Vec<u8>)>;

fn secret(byte: u8) -> SecretKey {
    SecretKey::from_slice(&[byte; 32]).unwrap()
}

fn point(byte: u8) -> secp256k1::PublicKey {
    secret(byte).public_key(&Secp256k1::new())
}

fn key(byte: u8) -> PublicKey {
    PublicKey::from_bytes(point(byte).serialize()).unwrap()
}

fn compressed(byte: u8) -> CompressedPublicKey {
    CompressedPublicKey(point(byte))
}

fn read_count(bytes: &[u8], at: &mut usize) -> usize {
    let first = bytes[*at];
    *at += 1;
    match first {
        0xfd => {
            let count = u16::from_le_bytes([bytes[*at], bytes[*at + 1]]) as usize;
            *at += 2;
            count
        }
        0xfe | 0xff => panic!("larger than these tests need"),
        _ => first as usize,
    }
}

/// The maps of a serialized transaction.
fn maps(bytes: &[u8]) -> Vec<Fields> {
    assert_eq!(&bytes[..5], b"psbt\xff");
    let mut at = 5;
    let mut maps = vec![];
    while at < bytes.len() {
        let mut fields = vec![];
        loop {
            let key_len = read_count(bytes, &mut at);
            if key_len == 0 {
                break;
            }
            let type_value = bytes[at] as u64;
            let key = bytes[at + 1..at + key_len].to_vec();
            at += key_len;
            let value_len = read_count(bytes, &mut at);
            fields.push((type_value, key, bytes[at..at + value_len].to_vec()));
            at += value_len;
        }
        maps.push(fields);
    }
    maps
}

#[test]
fn fields_are_those_of_the_serialization() {
    let secp = Secp256k1::new();
    let mut other = psbt_v2::v2::Creator::new().constructor_modifiable().psbt().unwrap();
    let mut global = Global::default();

    // The global map.
    other.global.fallback_lock_time = Some(absolute::LockTime::from_consensus(0x01020304));
    global.fallback_lock_time = Some(0x01020304);
    global.tx_modifiable_flags = 3;
    for byte in [5u8, 2, 9] {
        other.global.sp_ecdh_shares.insert(compressed(byte), compressed(byte + 1));
        other
            .global
            .sp_dleq_proofs
            .insert(compressed(byte), psbt_v2::v2::DleqProof([byte; 64]));
        global.sp_ecdh_shares.insert(key(byte), key(byte + 1));
        global.sp_dleq_proofs.insert(key(byte), DleqProof([byte; 64]));
    }
    other
        .global
        .unknowns
        .insert(psbt_v2::raw::Key { type_value: 0x77, key: vec![1, 2] }, vec![3]);
    global.unknowns.push(RawPair { type_value: 0x77, key: vec![1, 2], value: vec![3] });
    let proprietary = psbt_v2::raw::ProprietaryKey { prefix: vec![8, 9], subtype: 4, key: vec![6] };
    other.global.proprietaries.insert(proprietary.clone(), vec![1, 1]);
    global
        .proprietaries
        .push(RawEntry { key: proprietary.to_key().key, value: vec![1, 1] });

    // An input.
    let mut theirs =
        psbt_v2::v2::Input::new(&bitcoin::OutPoint::new(Txid::from_byte_array([6; 32]), 0x11223344));
    let mut ours = Input::new(&OutPoint { txid: [6; 32], vout: 0x11223344 });
    theirs.sequence = Some(Sequence(0xfffffffd));
    ours.sequence = Some(0xfffffffd);
    theirs.min_time = Some(absolute::Time::from_consensus(500_000_001).unwrap());
    ours.min_time = Some(500_000_001);
    theirs.min_height = Some(absolute::Height::from_consensus(77).unwrap());
    ours.min_height = Some(77);
    let previous = bitcoin::Transaction {
        version: bitcoin::transaction::Version::TWO,
        lock_time: absolute::LockTime::ZERO,
        input: vec![],
        output: vec![bitcoin::TxOut { value: Amount::from_sat(1), script_pubkey: ScriptBuf::new() }],
    };
    ours.non_witness_utxo =
        Some(Transaction { raw: bitcoin::consensus::serialize(&previous), outputs: vec![] });
    theirs.non_witness_utxo = Some(previous);
    let long_script = vec![0x51; 300];
    theirs.witness_utxo = Some(bitcoin::TxOut {
        value: Amount::from_sat(123_456_789),
        script_pubkey: ScriptBuf::from_bytes(long_script.clone()),
    });
    ours.witness_utxo = Some(TxOut { value: 123_456_789, script_pubkey: long_script });
    let signature = bitcoin::ecdsa::Signature {
        signature: secp.sign_ecdsa(&Message::from_digest([9; 32]), &secret(1)),
        sighash_type: bitcoin::EcdsaSighashType::All,
    };
    let uncompressed = bitcoin::PublicKey::new_uncompressed(point(1));
    theirs.partial_sigs.insert(uncompressed, signature);
    ours.partial_sigs.push(PartialSig {
        public_key: ScriptKey { compressed: false, inner: key(1) },
        signature: signature.to_vec(),
    });
    theirs.sighash_type = Some(psbt_v2::PsbtSighashType::from_u32(0x83));
    ours.sighash_type = Some(0x83);
    theirs.redeem_script = Some(ScriptBuf::from_bytes(vec![1, 2, 3]));
    ours.redeem_script = Some(vec![1, 2, 3]);
    theirs.witness_script = Some(ScriptBuf::from_bytes(vec![4]));
    ours.witness_script = Some(vec![4]);
    let origin = (
        bitcoin::bip32::Fingerprint::from([1, 2, 3, 4]),
        bitcoin::bip32::DerivationPath::from(vec![bitcoin::bip32::ChildNumber::from(0x8000002C)]),
    );
    theirs.bip32_derivations.insert(bitcoin::PublicKey::new(point(2)), origin.clone());
    let source = vec![1, 2, 3, 4, 0x2C, 0, 0, 0x80];
    ours.bip32_derivations.push(KeyOrigin {
        public_key: ScriptKey { compressed: true, inner: key(2) },
        source: source.clone(),
    });
    theirs.final_script_sig = Some(ScriptBuf::from_bytes(vec![5, 5]));
    ours.final_script_sig = Some(vec![5, 5]);
    let witness = vec![vec![1; 260], vec![], vec![2; 3]];
    theirs.final_script_witness = Some(Witness::from_slice(&witness));
    ours.final_script_witness = Some(witness);
    let preimage = vec![1, 2];
    let hash = bitcoin::hashes::sha256::Hash::hash(&preimage);
    theirs.sha256_preimages.insert(hash, preimage.clone());
    ours.sha256_preimages.push(RawEntry { key: hash.to_byte_array().to_vec(), value: preimage });
    theirs.tap_internal_key = Some(point(3).x_only_public_key().0);
    ours.tap_internal_key = Some(key(3).x_only());
    theirs.tap_merkle_root = Some(bitcoin::TapNodeHash::from_byte_array([3; 32]));
    ours.tap_merkle_root = Some([3; 32]);
    theirs.sp_ecdh_shares.insert(compressed(7), compressed(8));
    ours.sp_ecdh_shares.insert(key(7), key(8));
    theirs.sp_dleq_proofs.insert(compressed(7), psbt_v2::v2::DleqProof([7; 64]));
    ours.sp_dleq_proofs.insert(key(7), DleqProof([7; 64]));
    other.inputs.push(theirs);
    other.global.input_count = 1;
    global.input_count = 1;

    // An output.
    let mut their_output = psbt_v2::v2::Output::new(bitcoin::TxOut {
        value: Amount::from_sat(0x0102030405),
        script_pubkey: ScriptBuf::from_bytes(vec![9; 4]),
    });
    let mut output = Output::new(TxOut { value: 0x0102030405, script_pubkey: vec![9; 4] });
    their_output.redeem_script = Some(ScriptBuf::from_bytes(vec![1]));
    output.redeem_script = Some(vec![1]);
    their_output.witness_script = Some(ScriptBuf::from_bytes(vec![2]));
    output.witness_script = Some(vec![2]);
    their_output.bip32_derivations.insert(bitcoin::PublicKey::new(point(2)), origin);
    output.bip32_derivations.push(KeyOrigin {
        public_key: ScriptKey { compressed: true, inner: key(2) },
        source,
    });
    their_output.tap_internal_key = Some(point(4).x_only_public_key().0);
    output.tap_internal_key = Some(key(4).x_only());
    their_output.sp_v0_info = Some(vec![2; 66]);
    output.sp_v0_info = Some(vec![2; 66]);
    their_output.sp_v0_label = Some(0x0a0b0c0d);
    output.sp_v0_label = Some(0x0a0b0c0d);
    other.outputs.push(their_output);
    other.global.output_count = 1;
    global.output_count = 1;

    let maps = maps(&other.serialize());
    assert_eq!(maps.len(), 3);
    assert_eq!(global.iter_global_fields(), maps[0]);
    assert_eq!(ours.iter_input_fields(), maps[1]);
    assert_eq!(output.iter_output_fields(), maps[2]);
}

#[test]
fn silent_payment_spend_fields_are_listed() {
    let mut input = Input::new(&OutPoint { txid: [1; 32], vout: 0 });
    input.sp_tweak = Some([9; 32]);
    input.sp_spend_bip32_derivations.push(RawEntry { key: vec![3; 33], value: vec![4; 4] });
    input.musig2_pub_nonces.push(RawEntry { key: vec![5], value: vec![6] });
    assert_eq!(
        input.iter_input_fields(),
        vec![
            (0x0e, vec![], vec![1; 32]),
            (0x0f, vec![], vec![0; 4]),
            (0x1b, vec![5], vec![6]),
            (0x1f, vec![3; 33], vec![4; 4]),
            (0x20, vec![], vec![9; 32]),
        ]
    );
}
