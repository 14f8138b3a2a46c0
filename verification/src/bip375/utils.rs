//! Which inputs take part in a silent payment.

use vstd::prelude::*;
use crate::psbt;
use crate::script;
use crate::bip375::error::{Error, OtherError};
use crate::bytes::bytes_equal;
use crate::psbt::Input;
use crate::script::{is_p2pkh, is_p2sh, is_p2tr, is_p2wpkh};

verus! {

/// The x coordinate of the point whose discrete logarithm nobody knows (BIP-341).
pub const NUMS_H: [u8; 32] = [
    0x50, 0x92, 0x9b, 0x74, 0xc1, 0xa0, 0x49, 0x54, 0xb7, 0x8b, 0x4b, 0x60, 0x35, 0xe9, 0x7a, 0x5e,
    0x07, 0x8a, 0x5a, 0x0f, 0x28, 0xec, 0x96, 0xd5, 0x47, 0xbf, 0xee, 0x9a, 0xce, 0x80, 0x3a, 0xc0,
];

/// An input that spends an output with this script takes part (BIP-352).
pub open spec fn eligible_script(input: Input, script: Seq<u8>) -> bool {
    ||| script::p2wpkh(script)
    ||| script::p2tr(script) && !(input.tap_internal_key matches Some(key) && key@ == NUMS_H@)
    ||| script::p2pkh(script)
    ||| script::p2sh(script) && (input.redeem_script matches Some(redeem) && script::p2wpkh(
        redeem@,
    ))
}

/// Whether an input takes part, which shows only with the output that it spends.
pub open spec fn eligibility(input: Input) -> Result<bool, Error> {
    match psbt::funding_script(input) {
        Some(script) => Ok(eligible_script(input, script)),
        None => Err(Error::Other(OtherError::MissingFundingUtxo)),
    }
}

/// Whether an input takes part in a silent payment.
pub fn is_input_eligible(input: &Input) -> (res: Result<bool, Error>)
    ensures
        res == eligibility(*input),
{
    let Ok(funding_utxo) = input.funding_utxo() else {
        return Err(Error::Other(OtherError::MissingFundingUtxo));
    };
    let script = funding_utxo.script_pubkey.as_slice();

    if is_p2wpkh(script) {
        return Ok(true);
    }
    if is_p2tr(script) {
        if let Some(internal_key) = &input.tap_internal_key {
            let nums = NUMS_H;
            if bytes_equal(internal_key, &nums) {
                return Ok(false);
            }
        }
        return Ok(true);
    }
    if is_p2pkh(script) {
        return Ok(true);
    }
    if is_p2sh(script) {
        if let Some(redeem_script) = &input.redeem_script {
            return Ok(is_p2wpkh(redeem_script.as_slice()));
        }
        return Ok(false);
    }
    Ok(false)
}

/// An input takes part, or not, where the script of the output that it spends is known. It does
/// where that script pays to the hash of a witness public key or of a public key, where it pays to
/// a taproot key and the internal key is not the one that nobody can sign with, and where it pays
/// to the hash of a script which pays to the hash of a witness public key.
pub proof fn law_eligibility(input: Input)
    ensures
        psbt::funding_script(input) is None ==> eligibility(input) == Err::<bool, _>(
            Error::Other(OtherError::MissingFundingUtxo),
        ),
        psbt::funding_script(input) matches Some(script) ==> {
            let witness_key_hash = script.len() == 22 && script.take(2) == seq![0x00u8, 0x14u8];
            let taproot = script.len() == 34 && script.take(2) == seq![0x51u8, 0x20u8];
            let unspendable = input.tap_internal_key matches Some(key) && key@ == NUMS_H@;
            let key_hash = script.len() == 25 && script.take(3) == seq![0x76u8, 0xa9u8, 0x14u8]
                && script.skip(23) == seq![0x88u8, 0xacu8];
            let script_hash = script.len() == 23 && script.take(2) == seq![0xa9u8, 0x14u8]
                && script.skip(22) == seq![0x87u8];
            let nested = input.redeem_script matches Some(redeem) && redeem@.len() == 22
                && redeem@.take(2) == seq![0x00u8, 0x14u8];
            eligibility(input) == Ok::<_, Error>(
                witness_key_hash || (taproot && !unspendable) || key_hash || (script_hash
                    && nested),
            )
        },
{
    if let Some(script) = psbt::funding_script(input) {
        lemma_two(script, 0x00, 0x14);
        lemma_two(script, 0x51, 0x20);
        lemma_two(script, 0xa9, 0x14);
        if let Some(redeem) = input.redeem_script {
            lemma_two(redeem@, 0x00, 0x14);
        }
        if script.len() == 25 {
            assert(script.take(3) =~= seq![script[0], script[1], script[2]]);
            assert(script.skip(23) =~= seq![script[23], script[24]]);
            assert(script.take(3) == seq![0x76u8, 0xa9u8, 0x14u8] ==> script.take(3)[0] == 0x76
                && script.take(3)[1] == 0xa9 && script.take(3)[2] == 0x14);
            assert(script.skip(23) == seq![0x88u8, 0xacu8] ==> script.skip(23)[0] == 0x88
                && script.skip(23)[1] == 0xac);
        }
        if script.len() == 23 {
            assert(script.skip(22) =~= seq![script[22]]);
            assert(script.skip(22) == seq![0x87u8] ==> script.skip(22)[0] == 0x87);
        }
    }
}

proof fn lemma_two(bytes: Seq<u8>, a: u8, b: u8)
    ensures
        bytes.len() >= 2 ==> (bytes.take(2) == seq![a, b] <==> bytes[0] == a && bytes[1] == b),
{
    if bytes.len() >= 2 {
        if bytes[0] == a && bytes[1] == b {
            assert(bytes.take(2) =~= seq![a, b]);
        }
        if bytes.take(2) == seq![a, b] {
            assert(bytes.take(2)[0] == a && bytes.take(2)[1] == b);
        }
    }
}

/// The internal key that nobody can sign with.
pub proof fn law_unspendable_key()
    ensures
        NUMS_H@ == seq![
            80u8, 146u8, 155u8, 116u8, 193u8, 160u8, 73u8, 84u8, 183u8, 139u8, 75u8, 96u8, 53u8,
            233u8, 122u8, 94u8, 7u8, 138u8, 90u8, 15u8, 40u8, 236u8, 150u8, 213u8, 71u8, 191u8,
            238u8, 154u8, 206u8, 128u8, 58u8, 192u8,
        ],
{
    assert(NUMS_H@ =~= seq![
        80u8, 146u8, 155u8, 116u8, 193u8, 160u8, 73u8, 84u8, 183u8, 139u8, 75u8, 96u8, 53u8,
        233u8, 122u8, 94u8, 7u8, 138u8, 90u8, 15u8, 40u8, 236u8, 150u8, 213u8, 71u8, 191u8,
        238u8, 154u8, 206u8, 128u8, 58u8, 192u8,
    ]);
}

} // verus!
