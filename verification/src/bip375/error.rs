//! Errors of the silent payment roles.
//!
//! Their texts give public keys by the hexadecimal digits of their compressed encodings.

use vstd::prelude::*;
use crate::crypto::error as crypto_error;
use crate::text;
use crate::crypto::error::{CryptoError, SecpError};
use crate::secp::PublicKey;
use crate::text::{to_byte_list, to_decimal, to_hex};

verus! {

/// What is wrong with serialized share data.
#[derive(Clone, Copy, Debug, PartialEq, Eq)]
pub enum EcdhShareError {
    /// It has this many bytes, where 66 are expected.
    Length(usize),
    /// One of its two keys is malformed.
    MalformedKey,
}

/// Why an input cannot be finalized.
#[derive(Clone, Copy, Debug, PartialEq, Eq)]
pub enum ExtractionError {
    /// The input has neither a taproot signature nor partial signatures.
    NoSignatures { input_index: usize },
    /// The input has more than one partial signature.
    PartialSignatures { input_index: usize, count: usize },
}

/// What is wrong with a field.
#[derive(Clone, Copy, Debug, PartialEq, Eq)]
pub enum FieldDataError {
    /// The silent payment address of an output has this many bytes, where 66 are expected.
    SpInfoLength { output_index: Option<usize>, length: usize },
}

/// What a transaction is not ready for.
#[derive(Clone, Copy, Debug, PartialEq, Eq)]
pub enum PsbtStateError {
    /// There is no share for this scan key.
    MissingShare { scan_key: PublicKey },
    /// This address of an output is not among those with keys.
    UnknownAddress { address: [u8; 67] },
    /// Some of the keys belong to no output.
    UnusedKeys,
}

/// Why the hash over the inputs cannot be applied to a share.
#[derive(Clone, Copy, Debug, PartialEq, Eq)]
pub enum InputHashError {
    /// The hash is not below the curve order.
    AboveCurveOrder,
    /// The hash is zero.
    BadTweak,
}

/// The remaining errors.
#[derive(Clone, Debug, PartialEq, Eq)]
pub enum OtherError {
    /// There are no inputs to aggregate shares of.
    NoInputs,
    /// An input does not show the output that it spends.
    MissingFundingUtxo,
    /// A silent payment output is spent that is no taproot output.
    SpInputNotTaproot { input: Option<usize> },
    /// An input has more than one key derivation.
    MultipleDerivations { input: Option<usize> },
    /// An input has no key derivation.
    MissingDerivation { input: Option<usize> },
    /// An input has no share for a scan key.
    MissingInputShare { input_index: usize, scan_key: PublicKey },
    /// An input has no proof for a scan key.
    MissingInputProof { input_index: usize, scan_key: PublicKey },
    /// The proof of an input for a scan key could not be checked, for this reason.
    DleqCheckFailed(String),
    /// The proof of an input for a scan key is wrong.
    InvalidProof { input_index: usize, scan_key: PublicKey },
    /// It is not known whether the proof of an input for a scan key is right.
    UncheckedProof { input_index: usize, scan_key: PublicKey },
    /// The hash over the inputs cannot be applied to a share.
    InputHash(InputHashError),
    /// The inputs could not be signed, for this reason.
    Signing(String),
    /// No key can be derived for an output.
    RecipientKey,
    /// An address has fewer keys than outputs.
    NotEnoughKeys { output_index: usize },
    /// There is no shared secret for this scan key.
    MissingSharedSecret { scan_key: PublicKey },
    /// The addresses with keys are not those of the outputs.
    AddressMismatch,
    /// An address has not as many keys as outputs.
    KeyCountMismatch,
    /// The output at this position has a script already.
    OverwritingScript { output_index: usize },
}

/// Errors of the silent payment roles.
#[derive(Debug, PartialEq, Eq)]
pub enum Error {
    InvalidInputIndex(usize),
    InvalidPublicKey,
    InvalidEcdhShare(EcdhShareError),
    /// A scan key is not covered by a share of each eligible input; the output at this position
    /// is the first one that pays to it.
    IncompleteEcdhCoverage(usize),
    ExtractionFailed(ExtractionError),
    InvalidFieldData(FieldDataError),
    InvalidPsbtState(PsbtStateError),
    Crypto(CryptoError),
    Other(OtherError),
}

/// The error of bytes that are no public key.
pub open spec fn malformed_key() -> Error {
    Error::Crypto(CryptoError::Secp256k1(SecpError::InvalidPublicKey))
}

/// The error of public keys that have no sum.
pub open spec fn no_sum() -> Error {
    Error::Crypto(CryptoError::Secp256k1(SecpError::InvalidPublicKeySum))
}

/// What something is called, where its position may not be known.
pub open spec fn place_text(name: Seq<char>, position: Option<usize>) -> Seq<char> {
    match position {
        Some(index) => name + " "@ + text::decimal(index as nat),
        None => name,
    }
}

fn place_name(name: &'static str, position: &Option<usize>) -> (res: String)
    ensures
        res@ == place_text(name@, *position),
{
    match position {
        Some(index) => {
            String::from_str(name).concat(" ").concat(to_decimal(*index as u64).as_str())
        },
        None => String::from_str(name),
    }
}

/// What is said of serialized share data.
pub open spec fn share_text(error: EcdhShareError) -> Seq<char> {
    match error {
        EcdhShareError::Length(length) => {
            "Invalid length: expected 66 bytes, got "@
                + text::decimal(length as nat)
        },
        EcdhShareError::MalformedKey => "malformed public key"@,
    }
}

impl EcdhShareError {
    /// The text of the error.
    pub fn message(&self) -> (res: String)
        ensures
            res@ == share_text(*self),
    {
        match self {
            EcdhShareError::Length(length) => {
                String::from_str("Invalid length: expected 66 bytes, got ")
                    .concat(to_decimal(*length as u64).as_str())
            },
            EcdhShareError::MalformedKey => String::from_str("malformed public key"),
        }
    }
}

/// What is said of an input that cannot be finalized.
pub open spec fn extraction_text(error: ExtractionError) -> Seq<char> {
    match error {
        ExtractionError::NoSignatures { input_index } => {
            "Input "@
                + text::decimal(input_index as nat)
                + " has no signatures to finalize (no tap_key_sig or partial_sigs)"@
        },
        ExtractionError::PartialSignatures { input_index, count } => {
            "Input "@
                + text::decimal(input_index as nat)
                + " has "@
                + text::decimal(count as nat)
                + " partial signatures, expected 1 for P2WPKH"@
        },
    }
}

impl ExtractionError {
    /// The text of the error.
    pub fn message(&self) -> (res: String)
        ensures
            res@ == extraction_text(*self),
    {
        match self {
            ExtractionError::NoSignatures { input_index } => {
                String::from_str("Input ")
                    .concat(to_decimal(*input_index as u64).as_str())
                    .concat(" has no signatures to finalize (no tap_key_sig or partial_sigs)")
            },
            ExtractionError::PartialSignatures { input_index, count } => {
                String::from_str("Input ")
                    .concat(to_decimal(*input_index as u64).as_str())
                    .concat(" has ")
                    .concat(to_decimal(*count as u64).as_str())
                    .concat(" partial signatures, expected 1 for P2WPKH")
            },
        }
    }
}

/// What is said of a wrong field.
pub open spec fn field_text(error: FieldDataError) -> Seq<char> {
    match error {
        FieldDataError::SpInfoLength { output_index, length } => {
            place_text("Output"@, output_index)
                + " has invalid SP info length: "@
                + text::decimal(length as nat)
        },
    }
}

impl FieldDataError {
    /// The text of the error.
    pub fn message(&self) -> (res: String)
        ensures
            res@ == field_text(*self),
    {
        match self {
            FieldDataError::SpInfoLength { output_index, length } => {
                place_name("Output", output_index)
                    .concat(" has invalid SP info length: ")
                    .concat(to_decimal(*length as u64).as_str())
            },
        }
    }
}

/// What is said of a transaction that is not ready.
pub open spec fn state_text(error: PsbtStateError) -> Seq<char> {
    match error {
        PsbtStateError::MissingShare { scan_key } => {
            "Missing share for key "@
                + text::hex(scan_key@)
        },
        PsbtStateError::UnknownAddress { address } => {
            "sp_info "@
                + text::byte_list(address@)
                + " doesn't exit in provided map"@
        },
        PsbtStateError::UnusedKeys => "Failed to use all provided keys"@,
    }
}

impl PsbtStateError {
    /// The text of the error.
    pub fn message(&self) -> (res: String)
        ensures
            res@ == state_text(*self),
    {
        match self {
            PsbtStateError::MissingShare { scan_key } => {
                String::from_str("Missing share for key ")
                    .concat(to_hex(&scan_key.serialize()).as_str())
            },
            PsbtStateError::UnknownAddress { address } => {
                String::from_str("sp_info ")
                    .concat(to_byte_list(address).as_str())
                    .concat(" doesn't exit in provided map")
            },
            PsbtStateError::UnusedKeys => String::from_str("Failed to use all provided keys"),
        }
    }
}

/// What is said of a hash that cannot be applied.
pub open spec fn hash_text(error: InputHashError) -> Seq<char> {
    match error {
        InputHashError::AboveCurveOrder => "hash value greater than curve order"@,
        InputHashError::BadTweak => "bad tweak"@,
    }
}

impl InputHashError {
    /// The text of the error.
    pub fn message(&self) -> (res: String)
        ensures
            res@ == hash_text(*self),
    {
        match self {
            InputHashError::AboveCurveOrder => {
                String::from_str("hash value greater than curve order")
            },
            InputHashError::BadTweak => String::from_str("bad tweak"),
        }
    }
}

/// What is said of the remaining errors.
pub open spec fn other_text(error: OtherError) -> Seq<char> {
    match error {
        OtherError::NoInputs => "Cannot aggregate ECDH shares: no inputs"@,
        OtherError::MissingFundingUtxo => "Input doesn't have funding utxo yet"@,
        OtherError::SpInputNotTaproot { input } => {
            place_text("Input"@, input)
                + " is spending a silent payment output with a non-p2tr script pubkey"@
        },
        OtherError::MultipleDerivations { input } => {
            place_text("Input"@, input)
                + " has multiple bip32 derivations"@
        },
        OtherError::MissingDerivation { input } => {
            place_text("Input"@, input)
                + " missing bip32 derivation"@
        },
        OtherError::MissingInputShare { input_index, scan_key } => {
            "Input "@
                + text::decimal(input_index as nat)
                + " missing ECDH share for scan key "@
                + text::hex(scan_key@)
        },
        OtherError::MissingInputProof { input_index, scan_key } => {
            "Input "@
                + text::decimal(input_index as nat)
                + " missing DLEQ proof for scan key "@
                + text::hex(scan_key@)
        },
        OtherError::DleqCheckFailed(reason) => "DLEQ verification failed: "@ + reason@,
        OtherError::InvalidProof { input_index, scan_key } => {
            "Invalid proof for input "@
                + text::decimal(input_index as nat)
                + " and scan key "@
                + text::hex(scan_key@)
        },
        OtherError::UncheckedProof { input_index, scan_key } => {
            "Unchecked proof for input "@
                + text::decimal(input_index as nat)
                + " and scan key "@
                + text::hex(scan_key@)
        },
        OtherError::InputHash(error) => "Failed to apply input hash: "@ + hash_text(error),
        OtherError::Signing(reason) => reason@,
        OtherError::RecipientKey => "Failed to derive an output key"@,
        OtherError::NotEnoughKeys { .. } => "Not enough keys"@,
        OtherError::MissingSharedSecret { scan_key } => {
            "Failed to get shared secret for "@
                + text::hex(scan_key@)
        },
        OtherError::AddressMismatch => {
            "Address mismatch in the output of `generate_recipient_pubkeys`"@
        },
        OtherError::KeyCountMismatch => {
            "XOnlyPubkeys mismatch in the output of `generate_recipient_pubkeys`"@
        },
        OtherError::OverwritingScript { output_index } => {
            "Overwriting spk for output "@
                + text::decimal(output_index as nat)
        },
    }
}

impl OtherError {
    /// The text of the error.
    pub fn message(&self) -> (res: String)
        ensures
            res@ == other_text(*self),
    {
        match self {
            OtherError::NoInputs => String::from_str("Cannot aggregate ECDH shares: no inputs"),
            OtherError::MissingFundingUtxo => {
                String::from_str("Input doesn't have funding utxo yet")
            },
            OtherError::SpInputNotTaproot { input } => {
                place_name("Input", input)
                    .concat(" is spending a silent payment output with a non-p2tr script pubkey")
            },
            OtherError::MultipleDerivations { input } => {
                place_name("Input", input)
                    .concat(" has multiple bip32 derivations")
            },
            OtherError::MissingDerivation { input } => {
                place_name("Input", input)
                    .concat(" missing bip32 derivation")
            },
            OtherError::MissingInputShare { input_index, scan_key } => {
                String::from_str("Input ")
                    .concat(to_decimal(*input_index as u64).as_str())
                    .concat(" missing ECDH share for scan key ")
                    .concat(to_hex(&scan_key.serialize()).as_str())
            },
            OtherError::MissingInputProof { input_index, scan_key } => {
                String::from_str("Input ")
                    .concat(to_decimal(*input_index as u64).as_str())
                    .concat(" missing DLEQ proof for scan key ")
                    .concat(to_hex(&scan_key.serialize()).as_str())
            },
            OtherError::DleqCheckFailed(reason) => {
                String::from_str("DLEQ verification failed: ")
                    .concat(reason.as_str())
            },
            OtherError::InvalidProof { input_index, scan_key } => {
                String::from_str("Invalid proof for input ")
                    .concat(to_decimal(*input_index as u64).as_str())
                    .concat(" and scan key ")
                    .concat(to_hex(&scan_key.serialize()).as_str())
            },
            OtherError::UncheckedProof { input_index, scan_key } => {
                String::from_str("Unchecked proof for input ")
                    .concat(to_decimal(*input_index as u64).as_str())
                    .concat(" and scan key ")
                    .concat(to_hex(&scan_key.serialize()).as_str())
            },
            OtherError::InputHash(error) => {
                String::from_str("Failed to apply input hash: ")
                    .concat(error.message().as_str())
            },
            OtherError::Signing(reason) => String::from_str(reason.as_str()),
            OtherError::RecipientKey => String::from_str("Failed to derive an output key"),
            OtherError::NotEnoughKeys { .. } => String::from_str("Not enough keys"),
            OtherError::MissingSharedSecret { scan_key } => {
                String::from_str("Failed to get shared secret for ")
                    .concat(to_hex(&scan_key.serialize()).as_str())
            },
            OtherError::AddressMismatch => {
                String::from_str("Address mismatch in the output of `generate_recipient_pubkeys`")
            },
            OtherError::KeyCountMismatch => {
                String::from_str(
                    "XOnlyPubkeys mismatch in the output of `generate_recipient_pubkeys`",
                )
            },
            OtherError::OverwritingScript { output_index } => {
                String::from_str("Overwriting spk for output ")
                    .concat(to_decimal(*output_index as u64).as_str())
            },
        }
    }
}

/// What is said of an error.
pub open spec fn error_text(error: Error) -> Seq<char> {
    match error {
        Error::InvalidInputIndex(index) => "Invalid input index: "@ + text::decimal(index as nat),
        Error::InvalidPublicKey => "Invalid public key"@,
        Error::InvalidEcdhShare(error) => share_text(error),
        Error::IncompleteEcdhCoverage(output_index) => {
            "Incomplete ECDH coverage for output "@
                + text::decimal(output_index as nat)
        },
        Error::ExtractionFailed(error) => extraction_text(error),
        Error::InvalidFieldData(error) => field_text(error),
        Error::InvalidPsbtState(error) => state_text(error),
        Error::Crypto(error) => crypto_error::crypto_text(error),
        Error::Other(error) => other_text(error),
    }
}

impl Error {
    /// The text of the error.
    pub fn message(&self) -> (res: String)
        ensures
            res@ == error_text(*self),
    {
        match self {
            Error::InvalidInputIndex(index) => {
                String::from_str("Invalid input index: ")
                    .concat(to_decimal(*index as u64).as_str())
            },
            Error::InvalidPublicKey => String::from_str("Invalid public key"),
            Error::InvalidEcdhShare(error) => error.message(),
            Error::IncompleteEcdhCoverage(output_index) => {
                String::from_str("Incomplete ECDH coverage for output ")
                    .concat(to_decimal(*output_index as u64).as_str())
            },
            Error::ExtractionFailed(error) => error.message(),
            Error::InvalidFieldData(error) => error.message(),
            Error::InvalidPsbtState(error) => error.message(),
            Error::Crypto(error) => error.message(),
            Error::Other(error) => error.message(),
        }
    }
}

/// What is said of a place is its name, and its position behind it where that is known.
pub proof fn law_place_text(name: Seq<char>, index: usize)
    ensures
        place_text(name, None) == name,
        place_text(name, Some(index)) == name + " "@ + text::decimal(index as nat),
{
}

/// The texts that name an input or an output name it by its position, whatever that is.
pub proof fn law_position_texts(n: usize, count: usize)
    ensures
        error_text(Error::InvalidInputIndex(n)) == "Invalid input index: "@ + text::decimal(
            n as nat,
        ),
        error_text(Error::InvalidEcdhShare(EcdhShareError::Length(n)))
            == "Invalid length: expected 66 bytes, got "@ + text::decimal(n as nat),
        error_text(Error::IncompleteEcdhCoverage(n)) == "Incomplete ECDH coverage for output "@
            + text::decimal(n as nat),
        error_text(
            Error::ExtractionFailed(ExtractionError::NoSignatures { input_index: n }),
        ) == "Input "@ + text::decimal(n as nat)
            + " has no signatures to finalize (no tap_key_sig or partial_sigs)"@,
        error_text(
            Error::ExtractionFailed(
                ExtractionError::PartialSignatures { input_index: n, count },
            ),
        ) == "Input "@ + text::decimal(n as nat) + " has "@ + text::decimal(count as nat)
            + " partial signatures, expected 1 for P2WPKH"@,
        error_text(
            Error::InvalidFieldData(
                FieldDataError::SpInfoLength { output_index: Some(n), length: count },
            ),
        ) == "Output"@ + " "@ + text::decimal(n as nat) + " has invalid SP info length: "@
            + text::decimal(count as nat),
        error_text(
            Error::InvalidFieldData(
                FieldDataError::SpInfoLength { output_index: None, length: count },
            ),
        ) == "Output"@ + " has invalid SP info length: "@ + text::decimal(count as nat),
        error_text(Error::Other(OtherError::OverwritingScript { output_index: n }))
            == "Overwriting spk for output "@ + text::decimal(n as nat),
        error_text(Error::Other(OtherError::NotEnoughKeys { output_index: n }))
            == "Not enough keys"@,
        error_text(Error::Other(OtherError::SpInputNotTaproot { input: Some(n) })) == "Input"@
            + " "@ + text::decimal(n as nat)
            + " is spending a silent payment output with a non-p2tr script pubkey"@,
        error_text(Error::Other(OtherError::MultipleDerivations { input: Some(n) })) == "Input"@
            + " "@ + text::decimal(n as nat) + " has multiple bip32 derivations"@,
        error_text(Error::Other(OtherError::MissingDerivation { input: Some(n) })) == "Input"@
            + " "@ + text::decimal(n as nat) + " missing bip32 derivation"@,
{
}

/// The texts that name a scan key name it by the hexadecimal digits of its encoding, whatever it
/// is.
pub proof fn law_scan_key_texts(scan_key: PublicKey, n: usize)
    ensures
        error_text(Error::InvalidPsbtState(PsbtStateError::MissingShare { scan_key }))
            == "Missing share for key "@ + text::hex(scan_key@),
        error_text(Error::Other(OtherError::MissingSharedSecret { scan_key }))
            == "Failed to get shared secret for "@ + text::hex(scan_key@),
        error_text(Error::Other(OtherError::MissingInputShare { input_index: n, scan_key }))
            == "Input "@ + text::decimal(n as nat) + " missing ECDH share for scan key "@
            + text::hex(scan_key@),
        error_text(Error::Other(OtherError::MissingInputProof { input_index: n, scan_key }))
            == "Input "@ + text::decimal(n as nat) + " missing DLEQ proof for scan key "@
            + text::hex(scan_key@),
        error_text(Error::Other(OtherError::InvalidProof { input_index: n, scan_key }))
            == "Invalid proof for input "@ + text::decimal(n as nat) + " and scan key "@
            + text::hex(scan_key@),
        error_text(Error::Other(OtherError::UncheckedProof { input_index: n, scan_key }))
            == "Unchecked proof for input "@ + text::decimal(n as nat) + " and scan key "@
            + text::hex(scan_key@),
{
}

/// The texts that give a reason or an address end with the reason, or name the address by its bytes.
pub proof fn law_reason_texts(reason: String, address: [u8; 67])
    ensures
        error_text(Error::Other(OtherError::Signing(reason))) == reason@,
        error_text(Error::Other(OtherError::DleqCheckFailed(reason)))
            == "DLEQ verification failed: "@ + reason@,
        error_text(Error::InvalidPsbtState(PsbtStateError::UnknownAddress { address }))
            == "sp_info "@ + text::byte_list(address@) + " doesn't exit in provided map"@,
{
}

} // verus!
