//! Shares, proofs and the other silent payment fields.

use secp256k1::{Secp256k1, SecretKey};
use spdk::bip375::error::{EcdhShareError, Error, OtherError};
use spdk::bip375::extensions::{
    add_global_dleq_proof, add_input_dleq_proof, get_global_dleq_proof, get_input_dleq_proof,
    get_output_sp_info, Bip375PsbtExt,
};
use spdk::bip375::shares::{aggregate_ecdh_shares, compute_sp_shared_secrets};
use spdk::bip375::types::EcdhShareData;
use spdk::bip375::utils::{is_input_eligible, NUMS_H};
use spdk::hash::OutPoint;
use spdk::psbt::{
    DleqProof, FundingUtxoError, Global, Input, KeyOrigin, Output, PartialSig, Psbt, ScriptKey,
    Transaction, TxOut,
};
use spdk::secp::PublicKey;

fn public(byte: u8) -> PublicKey {
    let secret = SecretKey::from_slice(&[byte; 32]).unwrap();
    PublicKey::from_bytes(secret.public_key(&Secp256k1::new()).serialize()).unwrap()
}

fn sum(keys: &[PublicKey]) -> PublicKey {
    PublicKey::combine_keys(&keys.to_vec()).unwrap()
}

fn create_test_psbt() -> Psbt {
    Psbt { global: Global::default(), inputs: vec![], outputs: vec![] }
}

fn psbt_with_inputs(n: u32) -> Psbt {
    let mut psbt = create_test_psbt();
    psbt.inputs = (0..n).map(|vout| Input::new(&OutPoint { txid: [0; 32], vout })).collect();
    psbt
}

#[test]
fn test_global_ecdh_share() {
    let mut psbt = create_test_psbt();
    let scan_key = public(1);
    let share_point = public(2);
    let share = EcdhShareData::without_proof(scan_key, share_point);

    psbt.add_global_ecdh_share(&share).unwrap();

    let shares = psbt.get_global_ecdh_shares();
    assert_eq!(shares.len(), 1);
    assert_eq!(shares[0].scan_key, scan_key);
    assert_eq!(shares[0].share, share_point);
}

#[test]
fn test_global_dleq_proof() {
    let mut psbt = create_test_psbt();
    let scan_key = public(1);
    let proof = DleqProof([0x42u8; 64]);

    add_global_dleq_proof(&mut psbt, &scan_key, proof).unwrap();

    let retrieved = get_global_dleq_proof(&psbt, &scan_key);
    assert_eq!(retrieved, Some(proof));
    assert_eq!(get_global_dleq_proof(&psbt, &public(2)), None);
}

#[test]
fn test_ecdh_share_serialization() {
    let scan_key = public(1);
    let share = public(2);

    let ecdh = EcdhShareData::without_proof(scan_key, share);
    let bytes = ecdh.to_bytes();
    let decoded = EcdhShareData::from_bytes(&bytes).unwrap();

    assert_eq!(ecdh.scan_key, decoded.scan_key);
    assert_eq!(ecdh.share, decoded.share);
    assert_eq!(bytes, [scan_key.serialize(), share.serialize()].concat());
    assert_eq!(decoded.to_bytes(), bytes);
}

#[test]
fn malformed_share_data_is_refused() {
    assert_eq!(
        EcdhShareData::from_bytes(&[2; 65]),
        Err(Error::InvalidEcdhShare(EcdhShareError::Length(65)))
    );
    let mut bytes = EcdhShareData::without_proof(public(1), public(2)).to_bytes();
    bytes[33] = 0;
    assert_eq!(
        EcdhShareData::from_bytes(&bytes),
        Err(Error::InvalidEcdhShare(EcdhShareError::MalformedKey))
    );
    bytes[0] = 0;
    assert_eq!(
        EcdhShareData::from_bytes(&bytes),
        Err(Error::InvalidEcdhShare(EcdhShareError::MalformedKey))
    );
}

#[test]
fn shares_are_listed_by_scan_key() {
    let mut psbt = psbt_with_inputs(1);
    let proof = DleqProof([5; 64]);
    for byte in [9, 4, 7, 1] {
        let data = EcdhShareData::new(public(byte), public(byte + 100), Some(proof));
        psbt.add_input_ecdh_share(0, &data).unwrap();
    }
    let shares = psbt.get_input_ecdh_shares(0);
    assert_eq!(shares.len(), 4);
    for pair in shares.windows(2) {
        assert!(pair[0].scan_key.serialize() < pair[1].scan_key.serialize());
    }
    for byte in [9, 4, 7, 1] {
        assert!(shares.contains(&EcdhShareData::new(public(byte), public(byte + 100), Some(proof))));
    }
    psbt.add_input_ecdh_share(0, &EcdhShareData::without_proof(public(4), public(50))).unwrap();
    let shares = psbt.get_input_ecdh_shares(0);
    assert_eq!(shares.len(), 4);
    assert!(shares.contains(&EcdhShareData::new(public(4), public(50), Some(proof))));
}

#[test]
fn an_input_without_shares_has_the_global_ones() {
    let mut psbt = psbt_with_inputs(2);
    let global = EcdhShareData::new(public(1), public(2), Some(DleqProof([1; 64])));
    psbt.add_global_ecdh_share(&global).unwrap();
    psbt.add_input_ecdh_share(1, &EcdhShareData::without_proof(public(1), public(3))).unwrap();
    assert_eq!(psbt.get_input_ecdh_shares(0), vec![global]);
    assert_eq!(
        psbt.get_input_ecdh_shares(1),
        vec![EcdhShareData::new(public(1), public(3), Some(DleqProof([1; 64])))]
    );
    add_input_dleq_proof(&mut psbt, 1, &public(1), DleqProof([2; 64])).unwrap();
    assert_eq!(get_input_dleq_proof(&psbt, 1, &public(1)), Some(DleqProof([2; 64])));
    assert_eq!(get_input_dleq_proof(&psbt, 0, &public(1)), None);
    assert_eq!(psbt.get_input_ecdh_shares(1)[0].dleq_proof, Some(DleqProof([2; 64])));
    assert_eq!(psbt.get_input_ecdh_shares(2), vec![]);
}

#[test]
fn the_global_shares_come_with_the_global_proofs() {
    let mut psbt = psbt_with_inputs(1);
    let proven = EcdhShareData::new(public(1), public(2), Some(DleqProof([1; 64])));
    psbt.add_global_ecdh_share(&proven).unwrap();
    psbt.add_global_ecdh_share(&EcdhShareData::without_proof(public(3), public(4))).unwrap();
    add_input_dleq_proof(&mut psbt, 0, &public(1), DleqProof([7; 64])).unwrap();
    add_input_dleq_proof(&mut psbt, 0, &public(3), DleqProof([8; 64])).unwrap();
    let shares = psbt.get_input_ecdh_shares(0);
    assert_eq!(shares, psbt.get_global_ecdh_shares());
    assert!(shares.contains(&proven));
    assert!(shares.contains(&EcdhShareData::without_proof(public(3), public(4))));
}

#[test]
fn the_order_of_the_inputs_does_not_change_the_totals() {
    let mut psbt = psbt_with_inputs(3);
    let scan = public(1);
    for (index, byte) in [(0, 2), (1, 5), (2, 9)] {
        psbt.add_input_ecdh_share(index, &EcdhShareData::without_proof(scan, public(byte)))
            .unwrap();
    }
    psbt.add_input_ecdh_share(1, &EcdhShareData::without_proof(public(3), public(4))).unwrap();
    let shares = aggregate_ecdh_shares(&psbt).unwrap();
    assert_eq!(
        shares.get_share_point(&scan),
        Some(sum(&[public(9), public(2), public(5)]))
    );
    assert_eq!(shares.get_share_point(&public(3)), Some(public(4)));
    for order in [[0, 2, 1], [1, 0, 2], [1, 2, 0], [2, 0, 1], [2, 1, 0]] {
        let mut other = psbt.clone();
        other.inputs = order.iter().map(|index| psbt.inputs[*index as usize].clone()).collect();
        assert_eq!(aggregate_ecdh_shares(&other).unwrap(), shares);
    }
}

#[test]
fn positions_behind_the_inputs_are_refused() {
    let mut psbt = psbt_with_inputs(1);
    let data = EcdhShareData::without_proof(public(1), public(2));
    assert_eq!(psbt.add_input_ecdh_share(1, &data), Err(Error::InvalidInputIndex(1)));
    assert_eq!(
        add_input_dleq_proof(&mut psbt, 1, &public(1), DleqProof([0; 64])),
        Err(Error::InvalidInputIndex(1))
    );
    assert_eq!(psbt.set_input_sp_tweak(1, [0; 32]), Err(Error::InvalidInputIndex(1)));
    assert_eq!(psbt.remove_input_sp_tweak(1), Err(Error::InvalidInputIndex(1)));
    assert_eq!(
        psbt.remove_input_sp_spend_bip32_derivation(1),
        Err(Error::InvalidInputIndex(1))
    );
    assert_eq!(psbt.get_input_sp_tweak(1), None);
    assert_eq!(psbt.get_input_partial_sigs(1), vec![]);
    assert_eq!((psbt.num_inputs(), psbt.num_outputs()), (1, 0));
}

#[test]
fn a_tweak_is_set_and_removed() {
    let mut psbt = psbt_with_inputs(2);
    psbt.set_input_sp_tweak(1, [8; 32]).unwrap();
    assert_eq!(psbt.get_input_sp_tweak(1), Some([8; 32]));
    assert_eq!(psbt.get_input_sp_tweak(0), None);
    psbt.remove_input_sp_tweak(1).unwrap();
    assert_eq!(psbt, psbt_with_inputs(2));
    psbt.inputs[0].sp_spend_bip32_derivations.push(spdk::psbt::RawEntry { key: vec![], value: vec![] });
    psbt.remove_input_sp_spend_bip32_derivation(0).unwrap();
    assert_eq!(psbt, psbt_with_inputs(2));
}

#[test]
fn partial_signatures_are_listed() {
    let mut psbt = psbt_with_inputs(1);
    psbt.inputs[0].partial_sigs.push(PartialSig {
        public_key: ScriptKey { compressed: true, inner: public(3) },
        signature: vec![1, 2, 3],
    });
    assert_eq!(
        psbt.get_input_partial_sigs(0),
        vec![(public(3).serialize().to_vec(), vec![1, 2, 3])]
    );
}

#[test]
fn output_keys_are_read() {
    let mut psbt = create_test_psbt();
    let mut output = Output::new(TxOut { value: 1, script_pubkey: vec![] });
    psbt.outputs.push(output.clone());
    output.sp_v0_info = Some([public(1).serialize(), public(2).serialize()].concat());
    psbt.outputs.push(output.clone());
    output.sp_v0_info = Some(vec![0; 66]);
    psbt.outputs.push(output);
    assert_eq!(get_output_sp_info(&psbt, 0), None);
    assert_eq!(get_output_sp_info(&psbt, 1), Some((public(1), public(2))));
    assert_eq!(get_output_sp_info(&psbt, 2), None);
    assert_eq!(get_output_sp_info(&psbt, 3), None);
}

#[test]
fn equal_shares_are_added_up() {
    let mut psbt = psbt_with_inputs(3);
    let scan = public(1);
    for index in 0..3 {
        psbt.add_input_ecdh_share(index, &EcdhShareData::without_proof(scan, public(2))).unwrap();
    }
    let shares = aggregate_ecdh_shares(&psbt).unwrap();
    assert_eq!(shares.len(), 1);
    assert!(!shares.is_empty());
    assert!(shares.has_scan_key(&scan));
    assert!(!shares.has_scan_key(&public(2)));
    assert_eq!(shares.scan_keys(), vec![scan]);
    let share = shares.get(&scan).unwrap();
    assert_eq!(share.aggregated_share, sum(&[public(2), public(2), public(2)]));
    assert!(!share.is_global);
    assert_eq!(share.num_inputs, 3);
    assert_eq!(shares.get_share_point(&scan), Some(share.aggregated_share));
    assert_eq!(shares.get_share_point(&public(2)), None);
    assert_eq!(shares.iter(), vec![(&scan, share)]);
}

#[test]
fn a_global_share_takes_precedence() {
    let mut psbt = psbt_with_inputs(2);
    let scan = public(1);
    let other = public(5);
    psbt.add_global_ecdh_share(&EcdhShareData::without_proof(scan, public(9))).unwrap();
    psbt.add_input_ecdh_share(0, &EcdhShareData::without_proof(scan, public(2))).unwrap();
    psbt.add_input_ecdh_share(1, &EcdhShareData::without_proof(other, public(3))).unwrap();
    let shares = aggregate_ecdh_shares(&psbt).unwrap();
    assert_eq!(shares.len(), 2);
    let share = shares.get(&scan).unwrap();
    assert_eq!((share.aggregated_share, share.is_global, share.num_inputs), (public(9), true, 2));
    let share = shares.get(&other).unwrap();
    assert_eq!((share.aggregated_share, share.is_global, share.num_inputs), (public(3), false, 1));
}

#[test]
fn aggregation_needs_inputs() {
    assert_eq!(
        aggregate_ecdh_shares(&create_test_psbt()),
        Err(Error::Other(OtherError::NoInputs))
    );
    let shares = aggregate_ecdh_shares(&psbt_with_inputs(1)).unwrap();
    assert!(shares.is_empty());
    assert!(matches!(
        compute_sp_shared_secrets(&psbt_with_inputs(1), &shares),
        Err(Error::Crypto(_))
    ));
}

#[test]
fn shared_secrets_apply_the_input_hash() {
    let mut psbt = psbt_with_inputs(1);
    let scan = public(1);
    psbt.add_input_ecdh_share(0, &EcdhShareData::without_proof(scan, public(2))).unwrap();
    let mut script = vec![0x00, 0x14];
    script.extend_from_slice(&[7; 20]);
    psbt.inputs[0].witness_utxo = Some(TxOut { value: 1, script_pubkey: script });
    psbt.inputs[0].bip32_derivations.push(KeyOrigin {
        public_key: ScriptKey { compressed: true, inner: public(3) },
        source: vec![],
    });
    let shares = aggregate_ecdh_shares(&psbt).unwrap();
    let secrets = compute_sp_shared_secrets(&psbt, &shares).unwrap();
    let hash =
        spdk::hash::calculate_input_hash(&vec![psbt.inputs[0].out_point()], public(3)).unwrap();
    assert_eq!(secrets.len(), 1);
    assert_eq!(secrets.get(&scan), Some(&public(2).mul_tweak(&hash).unwrap()));
}

#[test]
fn eligibility_depends_on_the_script() {
    let mut input = Input::new(&OutPoint { txid: [0; 32], vout: 1 });
    assert_eq!(is_input_eligible(&input), Err(Error::Other(OtherError::MissingFundingUtxo)));
    assert_eq!(input.funding_utxo(), Err(FundingUtxoError::MissingUtxo));

    let script = |bytes: &[u8], filler: usize, end: &[u8]| {
        let mut script = bytes.to_vec();
        script.extend(vec![1u8; filler]);
        script.extend_from_slice(end);
        script
    };
    let p2wpkh = script(&[0x00, 0x14], 20, &[]);
    let p2tr = script(&[0x51, 0x20], 32, &[]);
    let p2pkh = script(&[0x76, 0xa9, 0x14], 20, &[0x88, 0xac]);
    let p2sh = script(&[0xa9, 0x14], 20, &[0x87]);
    let p2wsh = script(&[0x00, 0x20], 32, &[]);
    let with = |input: &Input, script: &Vec<u8>| {
        let mut input = input.clone();
        input.witness_utxo = Some(TxOut { value: 1, script_pubkey: script.clone() });
        is_input_eligible(&input)
    };
    assert_eq!(with(&input, &p2wpkh), Ok(true));
    assert_eq!(with(&input, &p2tr), Ok(true));
    assert_eq!(with(&input, &p2pkh), Ok(true));
    assert_eq!(with(&input, &p2sh), Ok(false));
    assert_eq!(with(&input, &p2wsh), Ok(false));
    input.redeem_script = Some(p2wpkh.clone());
    assert_eq!(with(&input, &p2sh), Ok(true));
    input.tap_internal_key = Some([1; 32]);
    assert_eq!(with(&input, &p2tr), Ok(true));
    input.tap_internal_key = Some(NUMS_H);
    assert_eq!(with(&input, &p2tr), Ok(false));

    let output = |script: &Vec<u8>| TxOut { value: 1, script_pubkey: script.clone() };
    input.non_witness_utxo = Some(Transaction { raw: vec![], outputs: vec![output(&p2wsh)] });
    assert_eq!(
        input.funding_utxo(),
        Err(FundingUtxoError::OutOfBounds { vout: 1, len: 1 })
    );
    input.non_witness_utxo =
        Some(Transaction { raw: vec![], outputs: vec![output(&p2wsh), output(&p2pkh)] });
    assert_eq!(is_input_eligible(&input), Ok(true));
}
