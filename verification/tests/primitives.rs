//! Hashes, keys, maps and texts.

use bitcoin::hashes::Hash as _;
use secp256k1::Secp256k1;
use spdk::bip375::error::{
    EcdhShareError, Error as RoleError, ExtractionError, FieldDataError, InputHashError, OtherError,
    PsbtStateError,
};
use spdk::address_map::AddressMap;
use spdk::crypto::error::{CryptoError, SecpError};
use spdk::hash::{
    calculate_input_hash, checked_input_hash, Error, InputsHash, LabelHash, OutPoint,
    SharedSecretHash,
};
use spdk::key_map::KeyMap;
use spdk::secp::{PublicKey, Scalar, SecretKey, CURVE_ORDER};
use spdk::sending::{generate_recipient_pubkeys, Recipient};

fn public(byte: u8) -> PublicKey {
    SecretKey::from_bytes([byte; 32]).unwrap().public_key()
}

fn hex(bytes: &[u8]) -> String {
    bytes.iter().map(|byte| format!("{:02x}", byte)).collect()
}

fn tagged(tag: &str, message: &[u8]) -> [u8; 32] {
    let tag = bitcoin::hashes::sha256::Hash::hash(tag.as_bytes()).to_byte_array();
    let data = [tag.as_slice(), &tag, message].concat();
    bitcoin::hashes::sha256::Hash::hash(&data).to_byte_array()
}

#[test]
fn hashes_are_tagged() {
    let outpoint = OutPoint { txid: [9; 32], vout: 0x01020304 };
    let key = public(1);
    let mut message = vec![9; 32];
    message.extend_from_slice(&[4, 3, 2, 1]);
    assert_eq!(outpoint.serialize(), message);
    message.extend_from_slice(&key.serialize());
    let hash = InputsHash::from_outpoint_and_A_sum(&outpoint, key);
    assert_eq!(hash.to_byte_array(), tagged("BIP0352/Inputs", &message));
    assert_eq!(hash.to_scalar().to_be_bytes(), hash.to_byte_array());

    let mut message = vec![2; 32];
    message.extend_from_slice(&[0, 0, 1, 2]);
    let label = LabelHash::from_b_scan_and_m(SecretKey::from_bytes([2; 32]).unwrap(), 0x0102);
    assert_eq!(label.to_byte_array(), tagged("BIP0352/Label", &message));
    assert_eq!(label.to_scalar().to_be_bytes(), label.to_byte_array());

    let mut message = key.serialize().to_vec();
    message.extend_from_slice(&[0, 0, 0, 7]);
    assert_eq!(
        SharedSecretHash::from_ecdh_and_k(&key, 7).to_byte_array(),
        tagged("BIP0352/SharedSecret", &message)
    );
}

#[test]
fn the_smallest_serialized_outpoint_is_hashed() {
    // Serialized, 256 precedes 1: the lowest byte comes first.
    let a = OutPoint { txid: [1; 32], vout: 256 };
    let b = OutPoint { txid: [1; 32], vout: 1 };
    let key = public(4);
    let expected = InputsHash::from_outpoint_and_A_sum(&a, key).to_scalar();
    assert_eq!(calculate_input_hash(&vec![b, a], key).unwrap(), expected);
    assert_eq!(calculate_input_hash(&vec![a, b, a], key).unwrap(), expected);
    assert_eq!(checked_input_hash(&vec![a, b], key).unwrap(), Some(expected));
    assert!(matches!(
        calculate_input_hash(&vec![], key),
        Err(Error::GenericError(message)) if message == "No outpoints provided"
    ));
    assert!(checked_input_hash(&vec![], key).is_err());
}

#[test]
fn keys_are_checked() {
    assert_eq!(Scalar::from_be_bytes(CURVE_ORDER), None);
    let mut below = CURVE_ORDER;
    below[31] -= 1;
    assert_eq!(Scalar::from_be_bytes(below).unwrap().to_be_bytes(), below);
    assert_eq!(SecretKey::from_bytes([0; 32]), None);
    assert_eq!(SecretKey::from_bytes(CURVE_ORDER), None);
    assert_eq!(SecretKey::from_bytes(below).unwrap().to_scalar().to_be_bytes(), below);
    assert_eq!(CURVE_ORDER, secp256k1::constants::CURVE_ORDER);

    assert_eq!(PublicKey::from_bytes([2; 33]).is_some(), secp256k1::PublicKey::from_slice(&[2; 33]).is_ok());
    assert_eq!(PublicKey::from_bytes([4; 33]), None);
    assert_eq!(PublicKey::from_x_only(&[0xff; 32]), None);
    let one = SecretKey::from_bytes({
        let mut bytes = [0; 32];
        bytes[31] = 1;
        bytes
    })
    .unwrap()
    .public_key();
    assert_eq!(
        hex(&one.serialize()),
        "0279be667ef9dcbbac55a06295ce870b07029bfcdb2dce28d959f2815b16f81798"
    );
    assert_eq!(PublicKey::from_x_only(&one.x_only()), Some(one));
    assert!(!one.is_odd());
}

#[test]
fn key_arithmetic_is_that_of_the_curve() {
    let secp = Secp256k1::new();
    let a = secp256k1::SecretKey::from_slice(&[1; 32]).unwrap();
    let b = secp256k1::SecretKey::from_slice(&[2; 32]).unwrap();
    let factor = secp256k1::Scalar::from(b);
    let own_a = SecretKey::from_bytes([1; 32]).unwrap();
    let own_b = Scalar::from_be_bytes([2; 32]).unwrap();

    assert_eq!(own_a.public_key().serialize(), a.public_key(&secp).serialize());
    assert_eq!(own_a.add_tweak(&own_b).unwrap().secret_bytes(), [3; 32]);
    assert_eq!(
        own_a.mul_tweak(&own_b).unwrap().secret_bytes(),
        a.mul_tweak(&factor).unwrap().secret_bytes()
    );
    let zero = Scalar::from_be_bytes([0; 32]).unwrap();
    assert_eq!(own_a.mul_tweak(&zero), None);
    assert_eq!(own_a.add_tweak(&zero), Some(own_a));
    assert_eq!(public(1).mul_tweak(&zero), None);
    assert_eq!(
        public(1).mul_tweak(&own_b).unwrap().serialize(),
        a.public_key(&secp).mul_tweak(&secp, &factor).unwrap().serialize()
    );
    assert_eq!(public(1).add_exp_tweak(&own_b), Some(public(3)));
    assert_eq!(PublicKey::combine_keys(&vec![public(1), public(2)]), Some(public(3)));
    assert_eq!(PublicKey::combine_keys(&vec![public(2), public(1)]), Some(public(3)));
    assert_eq!(PublicKey::combine_keys(&vec![public(2)]), Some(public(2)));
    assert_eq!(PublicKey::combine_keys(&vec![]), None);
    let mut negative = public(1).serialize();
    negative[0] = 5 - negative[0];
    let opposite = PublicKey::from_bytes(negative).unwrap();
    assert_eq!(PublicKey::combine_keys(&vec![public(1), opposite]), None);
    assert_eq!(
        public(1).serialize_uncompressed(),
        a.public_key(&secp).serialize_uncompressed()
    );
    for byte in 1..10 {
        let even = SecretKey::from_bytes([byte; 32]).unwrap().with_even_point().public_key();
        assert!(!even.is_odd());
        assert_eq!(even.x_only(), public(byte).x_only());
    }
}

#[test]
fn maps_hold_what_was_put_in() {
    let mut map: KeyMap<u32> = KeyMap::new();
    assert!(map.is_empty());
    for byte in [7u8, 3, 9, 1, 3] {
        map.insert(public(byte), byte as u32 * 2);
    }
    map.insert(public(9), 5);
    assert_eq!(map.len(), 4);
    assert_eq!(map.get(&public(9)), Some(&5));
    assert_eq!(map.get(&public(3)), Some(&6));
    assert_eq!(map.get(&public(2)), None);
    for i in 1..map.len() {
        assert!(map.at(i - 1).0.serialize() < map.at(i).0.serialize());
    }
    assert_eq!(map.clone(), map);

    let mut lists: AddressMap<u8> = AddressMap::new();
    lists.push([1; 67], 5);
    lists.push([2; 67], 6);
    lists.push([1; 67], 7);
    assert_eq!(lists.len(), 2);
    assert_eq!(lists.get(&[1; 67]), Some(&vec![5, 7]));
    assert_eq!(lists.get(&[3; 67]), None);
}

#[test]
fn recipients_of_one_scan_key_are_numbered() {
    let secret = public(30);
    let recipient = |scan: u8, spend: u8| Recipient {
        scan_key: public(scan),
        spend_key: public(spend),
        secret,
    };
    let keys = generate_recipient_pubkeys(&vec![
        recipient(1, 10),
        recipient(2, 10),
        recipient(1, 11),
        recipient(1, 10),
    ])
    .unwrap();
    let expect = |spend: u8, k: u32| {
        let hash = SharedSecretHash::from_ecdh_and_k(&secret, k).to_byte_array();
        public(spend).add_exp_tweak(&Scalar::from_be_bytes(hash).unwrap()).unwrap().x_only()
    };
    assert_eq!(keys.len(), 3);
    assert_eq!(keys.get(&recipient(1, 10).address()), Some(&vec![expect(10, 0), expect(10, 2)]));
    assert_eq!(keys.get(&recipient(2, 10).address()), Some(&vec![expect(10, 0)]));
    assert_eq!(keys.get(&recipient(1, 11).address()), Some(&vec![expect(11, 1)]));
    assert_eq!(recipient(1, 10).address()[0], 0);
    assert_eq!(recipient(1, 10).address()[1..34], public(1).serialize());
}

#[test]
fn errors_have_texts() {
    let text = |error: CryptoError| error.message();
    assert_eq!(text(CryptoError::InvalidPrivateKey), "Invalid private key");
    assert_eq!(text(CryptoError::InvalidPublicKey), "Invalid public key");
    assert_eq!(text(CryptoError::InvalidSignature), "Invalid signature");
    assert_eq!(
        text(CryptoError::DleqGenerationFailed("x".to_string())),
        "DLEQ proof generation failed: x"
    );
    assert_eq!(text(CryptoError::DleqVerificationFailed), "DLEQ proof verification failed");
    assert_eq!(
        text(CryptoError::InvalidDleqProofLength(1203)),
        "Invalid DLEQ proof length: expected 64 bytes, got 1203"
    );
    assert_eq!(
        text(CryptoError::InvalidDleqProofLength(0)),
        "Invalid DLEQ proof length: expected 64 bytes, got 0"
    );
    assert_eq!(text(CryptoError::InvalidEcdh), "Invalid ECDH result");
    assert_eq!(text(CryptoError::HashError("y".to_string())), "Hash function error: y");
    assert_eq!(text(CryptoError::Other("z".to_string())), "Other error: z");
    let pairs = [
        (SecpError::IncorrectSignature, secp256k1::Error::IncorrectSignature),
        (SecpError::InvalidMessage, secp256k1::Error::InvalidMessage),
        (SecpError::InvalidPublicKey, secp256k1::Error::InvalidPublicKey),
        (SecpError::InvalidSignature, secp256k1::Error::InvalidSignature),
        (SecpError::InvalidSecretKey, secp256k1::Error::InvalidSecretKey),
        (SecpError::InvalidSharedSecret, secp256k1::Error::InvalidSharedSecret),
        (SecpError::InvalidRecoveryId, secp256k1::Error::InvalidRecoveryId),
        (SecpError::InvalidTweak, secp256k1::Error::InvalidTweak),
        (SecpError::NotEnoughMemory, secp256k1::Error::NotEnoughMemory),
        (SecpError::InvalidPublicKeySum, secp256k1::Error::InvalidPublicKeySum),
        (SecpError::InvalidEllSwift, secp256k1::Error::InvalidEllSwift),
    ];
    for (own, other) in pairs {
        assert_eq!(text(CryptoError::from(own)), format!("Secp256k1 error: {}", other));
    }
    assert_eq!(SecpError::InvalidParityValue.message(), "couldn't create parity");
}

#[test]
fn role_errors_have_texts() {
    let scan_key = public(6);
    let displayed = secp256k1::PublicKey::from_slice(&scan_key.serialize()).unwrap().to_string();
    let mut address = [9; 67];
    address[0] = 0;
    address[66] = 255;
    let texts = [
        (RoleError::InvalidInputIndex(12), "Invalid input index: 12".to_string()),
        (RoleError::InvalidPublicKey, "Invalid public key".to_string()),
        (
            RoleError::InvalidEcdhShare(EcdhShareError::Length(65)),
            "Invalid length: expected 66 bytes, got 65".to_string(),
        ),
        (RoleError::InvalidEcdhShare(EcdhShareError::MalformedKey), "malformed public key".to_string()),
        (RoleError::IncompleteEcdhCoverage(3), "Incomplete ECDH coverage for output 3".to_string()),
        (
            RoleError::ExtractionFailed(ExtractionError::NoSignatures { input_index: 4 }),
            "Input 4 has no signatures to finalize (no tap_key_sig or partial_sigs)".to_string(),
        ),
        (
            RoleError::ExtractionFailed(ExtractionError::PartialSignatures {
                input_index: 4,
                count: 2,
            }),
            "Input 4 has 2 partial signatures, expected 1 for P2WPKH".to_string(),
        ),
        (
            RoleError::InvalidFieldData(FieldDataError::SpInfoLength {
                output_index: Some(1),
                length: 10,
            }),
            "Output 1 has invalid SP info length: 10".to_string(),
        ),
        (
            RoleError::InvalidFieldData(FieldDataError::SpInfoLength {
                output_index: None,
                length: 10,
            }),
            "Output has invalid SP info length: 10".to_string(),
        ),
        (
            RoleError::InvalidPsbtState(PsbtStateError::MissingShare { scan_key }),
            format!("Missing share for key {}", displayed),
        ),
        (
            RoleError::InvalidPsbtState(PsbtStateError::UnknownAddress { address }),
            format!("sp_info {:?} doesn't exit in provided map", address),
        ),
        (
            RoleError::InvalidPsbtState(PsbtStateError::UnusedKeys),
            "Failed to use all provided keys".to_string(),
        ),
        (RoleError::Crypto(CryptoError::InvalidEcdh), "Invalid ECDH result".to_string()),
        (RoleError::Other(OtherError::Signing("no key".to_string())), "no key".to_string()),
        (RoleError::Other(OtherError::NoInputs), "Cannot aggregate ECDH shares: no inputs".to_string()),
        (
            RoleError::Other(OtherError::MissingFundingUtxo),
            "Input doesn't have funding utxo yet".to_string(),
        ),
        (
            RoleError::Other(OtherError::SpInputNotTaproot { input: Some(7) }),
            "Input 7 is spending a silent payment output with a non-p2tr script pubkey".to_string(),
        ),
        (
            RoleError::Other(OtherError::MultipleDerivations { input: Some(7) }),
            "Input 7 has multiple bip32 derivations".to_string(),
        ),
        (
            RoleError::Other(OtherError::MissingDerivation { input: None }),
            "Input missing bip32 derivation".to_string(),
        ),
        (
            RoleError::Other(OtherError::MissingInputShare { input_index: 1, scan_key }),
            format!("Input 1 missing ECDH share for scan key {}", displayed),
        ),
        (
            RoleError::Other(OtherError::MissingInputProof { input_index: 1, scan_key }),
            format!("Input 1 missing DLEQ proof for scan key {}", displayed),
        ),
        (
            RoleError::Other(OtherError::DleqCheckFailed("why".to_string())),
            "DLEQ verification failed: why".to_string(),
        ),
        (
            RoleError::Other(OtherError::InvalidProof { input_index: 1, scan_key }),
            format!("Invalid proof for input 1 and scan key {}", displayed),
        ),
        (
            RoleError::Other(OtherError::UncheckedProof { input_index: 1, scan_key }),
            format!("Unchecked proof for input 1 and scan key {}", displayed),
        ),
        (
            RoleError::Other(OtherError::InputHash(InputHashError::AboveCurveOrder)),
            "Failed to apply input hash: hash value greater than curve order".to_string(),
        ),
        (
            RoleError::Other(OtherError::InputHash(InputHashError::BadTweak)),
            "Failed to apply input hash: bad tweak".to_string(),
        ),
        (RoleError::Other(OtherError::RecipientKey), "Failed to derive an output key".to_string()),
        (RoleError::Other(OtherError::NotEnoughKeys { output_index: 0 }), "Not enough keys".to_string()),
        (
            RoleError::Other(OtherError::MissingSharedSecret { scan_key }),
            format!("Failed to get shared secret for {}", displayed),
        ),
        (
            RoleError::Other(OtherError::AddressMismatch),
            "Address mismatch in the output of `generate_recipient_pubkeys`".to_string(),
        ),
        (
            RoleError::Other(OtherError::KeyCountMismatch),
            "XOnlyPubkeys mismatch in the output of `generate_recipient_pubkeys`".to_string(),
        ),
        (
            RoleError::Other(OtherError::OverwritingScript { output_index: 6 }),
            "Overwriting spk for output 6".to_string(),
        ),
    ];
    for (error, text) in texts {
        assert_eq!(error.message(), text);
    }
}
