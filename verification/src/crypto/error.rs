//! Error types for cryptographic operations.

use vstd::prelude::*;
use crate::text;
use crate::text::to_decimal;

verus! {

/// The failures of the `secp256k1` crate.
#[derive(Clone, Copy, Debug, PartialEq, Eq)]
pub enum SecpError {
    IncorrectSignature,
    InvalidMessage,
    InvalidPublicKey,
    InvalidSignature,
    InvalidSecretKey,
    InvalidSharedSecret,
    InvalidRecoveryId,
    InvalidTweak,
    NotEnoughMemory,
    InvalidPublicKeySum,
    InvalidParityValue,
    InvalidEllSwift,
}

/// Cryptographic errors.
#[derive(Debug, PartialEq, Eq)]
pub enum CryptoError {
    Secp256k1(SecpError),
    InvalidPrivateKey,
    InvalidPublicKey,
    InvalidSignature,
    DleqGenerationFailed(String),
    DleqVerificationFailed,
    InvalidDleqProofLength(usize),
    InvalidEcdh,
    HashError(String),
    Other(String),
}

impl From<SecpError> for CryptoError {
    fn from(value: SecpError) -> (res: Self) {
        CryptoError::Secp256k1(value)
    }
}

impl vstd::std_specs::convert::FromSpecImpl<SecpError> for CryptoError {
    open spec fn obeys_from_spec() -> bool {
        true
    }

    open spec fn from_spec(value: SecpError) -> CryptoError {
        CryptoError::Secp256k1(value)
    }
}

/// The text of a failure of the `secp256k1` crate.
pub open spec fn secp_text(error: SecpError) -> Seq<char> {
    match error {
        SecpError::IncorrectSignature => "signature failed verification"@,
        SecpError::InvalidMessage => "message was not 32 bytes (do you need to hash?)"@,
        SecpError::InvalidPublicKey => "malformed public key"@,
        SecpError::InvalidSignature => "malformed signature"@,
        SecpError::InvalidSecretKey => "malformed or out-of-range secret key"@,
        SecpError::InvalidSharedSecret => "malformed or out-of-range shared secret"@,
        SecpError::InvalidRecoveryId => "bad recovery id"@,
        SecpError::InvalidTweak => "bad tweak"@,
        SecpError::NotEnoughMemory => "not enough memory allocated"@,
        SecpError::InvalidPublicKeySum =>
            "the sum of public keys was invalid or the input vector lengths was less than 1"@,
        SecpError::InvalidParityValue => "couldn't create parity"@,
        SecpError::InvalidEllSwift => "malformed EllSwift value"@,
    }
}

/// The text of a cryptographic error.
pub open spec fn crypto_text(error: CryptoError) -> Seq<char> {
    match error {
        CryptoError::Secp256k1(err) => "Secp256k1 error: "@ + secp_text(err),
        CryptoError::InvalidPrivateKey => "Invalid private key"@,
        CryptoError::InvalidPublicKey => "Invalid public key"@,
        CryptoError::InvalidSignature => "Invalid signature"@,
        CryptoError::DleqGenerationFailed(err) => "DLEQ proof generation failed: "@ + err@,
        CryptoError::DleqVerificationFailed => "DLEQ proof verification failed"@,
        CryptoError::InvalidDleqProofLength(len) =>
            "Invalid DLEQ proof length: expected 64 bytes, got "@ + text::decimal(len as nat),
        CryptoError::InvalidEcdh => "Invalid ECDH result"@,
        CryptoError::HashError(err) => "Hash function error: "@ + err@,
        CryptoError::Other(err) => "Other error: "@ + err@,
    }
}

impl SecpError {
    /// The text of the failure.
    pub fn message(&self) -> (res: &'static str)
        ensures
            res@ == secp_text(*self),
    {
        match self {
            SecpError::IncorrectSignature => "signature failed verification",
            SecpError::InvalidMessage => "message was not 32 bytes (do you need to hash?)",
            SecpError::InvalidPublicKey => "malformed public key",
            SecpError::InvalidSignature => "malformed signature",
            SecpError::InvalidSecretKey => "malformed or out-of-range secret key",
            SecpError::InvalidSharedSecret => "malformed or out-of-range shared secret",
            SecpError::InvalidRecoveryId => "bad recovery id",
            SecpError::InvalidTweak => "bad tweak",
            SecpError::NotEnoughMemory => "not enough memory allocated",
            SecpError::InvalidPublicKeySum =>
                "the sum of public keys was invalid or the input vector lengths was less than 1",
            SecpError::InvalidParityValue => "couldn't create parity",
            SecpError::InvalidEllSwift => "malformed EllSwift value",
        }
    }
}

impl CryptoError {
    /// The text of the error.
    pub fn message(&self) -> (res: String)
        ensures
            res@ == crypto_text(*self),
    {
        match self {
            CryptoError::Secp256k1(err) => String::from_str("Secp256k1 error: ").concat(
                err.message(),
            ),
            CryptoError::InvalidPrivateKey => String::from_str("Invalid private key"),
            CryptoError::InvalidPublicKey => String::from_str("Invalid public key"),
            CryptoError::InvalidSignature => String::from_str("Invalid signature"),
            CryptoError::DleqGenerationFailed(err) => String::from_str(
                "DLEQ proof generation failed: ",
            ).concat(err.as_str()),
            CryptoError::DleqVerificationFailed => String::from_str(
                "DLEQ proof verification failed",
            ),
            CryptoError::InvalidDleqProofLength(len) => String::from_str(
                "Invalid DLEQ proof length: expected 64 bytes, got ",
            ).concat(to_decimal(*len as u64).as_str()),
            CryptoError::InvalidEcdh => String::from_str("Invalid ECDH result"),
            CryptoError::HashError(err) => String::from_str("Hash function error: ").concat(
                err.as_str(),
            ),
            CryptoError::Other(err) => String::from_str("Other error: ").concat(err.as_str()),
        }
    }
}

/// The texts that give a reason end with the reason, and a failure of the curve with its own text.
pub proof fn law_reason_texts(reason: String, error: SecpError, length: usize)
    ensures
        crypto_text(CryptoError::DleqGenerationFailed(reason))
            == "DLEQ proof generation failed: "@ + reason@,
        crypto_text(CryptoError::HashError(reason)) == "Hash function error: "@ + reason@,
        crypto_text(CryptoError::Other(reason)) == "Other error: "@ + reason@,
        crypto_text(CryptoError::Secp256k1(error)) == "Secp256k1 error: "@ + secp_text(error),
        crypto_text(CryptoError::InvalidDleqProofLength(length))
            == "Invalid DLEQ proof length: expected 64 bytes, got "@ + text::decimal(
            length as nat,
        ),
{
}

/// A failure of the curve becomes the cryptographic error that holds it, whichever it is.
pub proof fn law_from_secp_error(error: SecpError)
    ensures
        <CryptoError as vstd::std_specs::convert::FromSpec<SecpError>>::from_spec(error)
            == CryptoError::Secp256k1(error),
{
}

/// The texts of the failures of the curve are those of the `secp256k1` crate.
pub proof fn law_secp_texts()
    ensures
        secp_text(SecpError::IncorrectSignature) == "signature failed verification"@,
        secp_text(SecpError::InvalidMessage) == "message was not 32 bytes (do you need to hash?)"@,
        secp_text(SecpError::InvalidPublicKey) == "malformed public key"@,
        secp_text(SecpError::InvalidSignature) == "malformed signature"@,
        secp_text(SecpError::InvalidSecretKey) == "malformed or out-of-range secret key"@,
        secp_text(SecpError::InvalidSharedSecret) == "malformed or out-of-range shared secret"@,
        secp_text(SecpError::InvalidRecoveryId) == "bad recovery id"@,
        secp_text(SecpError::InvalidTweak) == "bad tweak"@,
        secp_text(SecpError::NotEnoughMemory) == "not enough memory allocated"@,
        secp_text(SecpError::InvalidPublicKeySum)
            == "the sum of public keys was invalid or the input vector lengths was less than 1"@,
        secp_text(SecpError::InvalidParityValue) == "couldn't create parity"@,
        secp_text(SecpError::InvalidEllSwift) == "malformed EllSwift value"@,
{
}

} // verus!
