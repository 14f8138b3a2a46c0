//! The keys of the inputs that take part in a silent payment.

use vstd::prelude::*;
use crate::bip375::error;
use crate::bip375::utils;
use crate::collected;
use crate::psbt;
use crate::script;
use crate::secp;
use crate::bip375::error::{Error, OtherError};
use crate::bip375::utils::is_input_eligible;
use crate::crypto::error::{CryptoError, SecpError};
use crate::psbt::{Input, RawEntry};
use crate::script::is_p2tr;
use crate::secp::PublicKey;

verus! {

/// The key of an input that takes part: the output key that a silent payment input spends, and
/// the key of the only derivation of any other input. `None` for an input that takes no part.
pub open spec fn input_key(input: Input, position: Option<usize>) -> Result<
    Option<Seq<u8>>,
    Error,
> {
    match utils::eligibility(input) {
        Err(error) => Err(error),
        Ok(false) => Ok(None),
        Ok(true) => if input.sp_tweak is Some {
            let script = psbt::funding_script(input)->Some_0;
            let point = seq![2u8] + script.subrange(2, 34);
            if !script::p2tr(script) {
                Err(Error::Other(OtherError::SpInputNotTaproot { input: position }))
            } else if !secp::valid_point(point) {
                Err(error::malformed_key())
            } else {
                Ok(Some(point))
            }
        } else if input.bip32_derivations@.len() > 1 {
            Err(Error::Other(OtherError::MultipleDerivations { input: position }))
        } else if input.bip32_derivations@.len() == 0 {
            Err(Error::Other(OtherError::MissingDerivation { input: position }))
        } else {
            Ok(Some(input.bip32_derivations@[0].public_key.inner@))
        },
    }
}

/// The key of an input, where it takes part and the key is there.
pub open spec fn input_point(input: Input) -> Option<Seq<u8>> {
    match input_key(input, None) {
        Ok(point) => point,
        Err(_) => None,
    }
}

/// Finds the key of an input, which stands at `position`.
pub fn find_input_key(input: &Input, position: Option<usize>) -> (res: Result<
    Option<PublicKey>,
    Error,
>)
    ensures
        match res {
            Ok(Some(key)) => input_key(*input, position) == Ok::<_, Error>(Some(key@)),
            Ok(None) => input_key(*input, position) == Ok::<Option<Seq<u8>>, Error>(None),
            Err(error) => input_key(*input, position) == Err::<Option<Seq<u8>>, _>(error),
        },
{
    match is_input_eligible(input) {
        Err(error) => return Err(error),
        Ok(false) => return Ok(None),
        Ok(true) => {},
    }
    if input.sp_tweak.is_some() {
        let Ok(funding_utxo) = input.funding_utxo() else {
            return Err(Error::Other(OtherError::MissingFundingUtxo));
        };
        let script = funding_utxo.script_pubkey.as_slice();
        if !is_p2tr(script) {
            return Err(Error::Other(OtherError::SpInputNotTaproot { input: position }));
        }
        let mut x = [0u8; 32];
        let mut i: usize = 0;
        while i < 32
            invariant
                i <= 32,
                script@.len() == 34,
                forall|j: int| 0 <= j < i ==> x@[j] == script@[j + 2],
            decreases 32 - i,
        {
            x[i] = script[i + 2];
            i += 1;
        }
        assert(x@ =~= script@.subrange(2, 34));
        match PublicKey::from_x_only(&x) {
            Some(key) => Ok(Some(key)),
            None => Err(Error::Crypto(CryptoError::Secp256k1(SecpError::InvalidPublicKey))),
        }
    } else if input.bip32_derivations.len() > 1 {
        Err(Error::Other(OtherError::MultipleDerivations { input: position }))
    } else if input.bip32_derivations.len() == 0 {
        Err(Error::Other(OtherError::MissingDerivation { input: position }))
    } else {
        Ok(Some(input.bip32_derivations[0].public_key.inner))
    }
}

/// What `input_key` gives for each input.
pub open spec fn input_key_items(inputs: Seq<Input>) -> Seq<Result<Option<Seq<u8>>, Error>> {
    Seq::new(inputs.len(), |i: int| input_key(inputs[i], Some(i as usize)))
}

/// The keys of the inputs that take part.
pub open spec fn input_keys(inputs: Seq<Input>) -> Result<Seq<Seq<u8>>, Error> {
    collected::collected(input_key_items(inputs))
}

/// Finds the keys of the inputs that take part.
pub fn find_input_keys(inputs: &Vec<Input>) -> (res: Result<Vec<PublicKey>, Error>)
    ensures
        match res {
            Ok(keys) => input_keys(inputs@) == Ok::<_, Error>(secp::encodings(keys@)),
            Err(error) => input_keys(inputs@) == Err::<Seq<Seq<u8>>, _>(error),
        },
{
    let ghost items = input_key_items(inputs@);
    let mut keys: Vec<PublicKey> = Vec::new();
    let mut i: usize = 0;
    assert(items.take(0) =~= Seq::empty());
    assert(secp::encodings(keys@) =~= Seq::empty());
    while i < inputs.len()
        invariant
            i <= inputs@.len(),
            items == input_key_items(inputs@),
            collected::collected(items.take(i as int)) == Ok::<_, Error>(secp::encodings(keys@)),
        decreases inputs@.len() - i,
    {
        proof {
            collected::lemma_step(items, i as int);
            if collected::collected(items.take(i + 1)) is Err {
                collected::lemma_failure(items, i + 1);
            }
        }
        match find_input_key(&inputs[i], Some(i)) {
            Err(error) => return Err(error),
            Ok(None) => {},
            Ok(Some(key)) => {
                let ghost before = secp::encodings(keys@);
                keys.push(key);
                assert(secp::encodings(keys@) =~= before.push(key@));
            },
        }
        i += 1;
    }
    assert(items.take(i as int) =~= items);
    Ok(keys)
}

/// The key of an input does not depend on the derivations of its spend key.
pub proof fn law_spend_derivations_are_not_read(
    input: Input,
    derivations: Vec<RawEntry>,
    position: Option<usize>,
)
    ensures
        input_key((Input { sp_spend_bip32_derivations: derivations, ..input }), position)
            == input_key(input, position),
{
}

/// An input that takes no part adds no key.
pub proof fn law_ineligible_inputs_add_no_key(inputs: Seq<Input>, input: Input)
    requires
        utils::eligibility(input) == Ok::<_, Error>(false),
    ensures
        input_keys(inputs.push(input)) == input_keys(inputs),
{
    let items = input_key_items(inputs.push(input));
    assert(items.drop_last() =~= input_key_items(inputs));
}

/// Only an input that takes part has a key. That of a silent payment input is the point with an
/// even y coordinate whose x coordinate its taproot script pays to; that of any other input is the
/// key of its derivation, where it has exactly one.
pub proof fn law_input_key(input: Input, position: Option<usize>)
    ensures
        utils::eligibility(input) matches Err(error) ==> input_key(input, position) == Err::<
            Option<Seq<u8>>,
            _,
        >(error),
        utils::eligibility(input) == Ok::<_, Error>(false) ==> input_key(input, position) == Ok::<
            Option<Seq<u8>>,
            Error,
        >(None),
        utils::eligibility(input) == Ok::<_, Error>(true) && input.sp_tweak is Some ==> {
            let script = psbt::funding_script(input)->Some_0;
            let taproot = script.len() == 34 && script[0] == 81 && script[1] == 32;
            let point = seq![2u8] + script.skip(2);
            input_key(input, position) == (if !taproot {
                Err(Error::Other(OtherError::SpInputNotTaproot { input: position }))
            } else if secp::valid_point(point) {
                Ok(Some(point))
            } else {
                Err(Error::Crypto(CryptoError::Secp256k1(SecpError::InvalidPublicKey)))
            })
        },
        utils::eligibility(input) == Ok::<_, Error>(true) && input.sp_tweak is None ==> {
            let count = input.bip32_derivations@.len();
            input_key(input, position) == (if count == 1 {
                Ok(Some(input.bip32_derivations@[0].public_key.inner@))
            } else if count == 0 {
                Err(Error::Other(OtherError::MissingDerivation { input: position }))
            } else {
                Err(Error::Other(OtherError::MultipleDerivations { input: position }))
            })
        },
        input_point(input) matches Some(point) ==> input_key(input, position) == Ok::<_, Error>(
            Some(point),
        ),
        input_key(input, position) matches Ok(Some(point)) ==> input_point(input) == Some(point),
{
    if psbt::funding_script(input) is Some {
        let script = psbt::funding_script(input)->Some_0;
        if script.len() == 34 {
            assert(script.skip(2) =~= script.subrange(2, 34));
        }
    }
}

/// The keys of the inputs are those of the inputs that take part, one for each, in their order. They
/// are known where it is known of each input whether it takes part, and those that do have a key.
pub proof fn law_input_keys(inputs: Seq<Input>)
    ensures
        input_keys(inputs) is Ok <==> forall|i: int|
            0 <= i < inputs.len() ==> input_key(#[trigger] inputs[i], None) is Ok,
        input_keys(inputs) matches Ok(points) ==> points == inputs.filter(
            |input: Input| utils::eligibility(input) == Ok::<_, Error>(true),
        ).map_values(|input: Input| input_point(input)->Some_0),
    decreases inputs.len(),
{
    reveal(Seq::filter);
    let takes_part = |input: Input| utils::eligibility(input) == Ok::<_, Error>(true);
    let own_key = |input: Input| input_point(input)->Some_0;
    let items = input_key_items(inputs);
    if inputs.len() > 0 {
        let rest = inputs.drop_last();
        let last = inputs[inputs.len() - 1];
        law_input_keys(rest);
        assert(items.drop_last() =~= input_key_items(rest));
        assert(items.last() == input_key(last, Some((inputs.len() - 1) as usize)));
        assert forall|i: int| 0 <= i < rest.len() implies #[trigger] rest[i] == inputs[i] by {
        }
        assert(input_key(last, None) is Ok == items.last() is Ok);
        if input_keys(inputs) is Ok {
            assert forall|i: int| 0 <= i < inputs.len() implies input_key(
                #[trigger] inputs[i],
                None,
            ) is Ok by {
                if i < rest.len() {
                    assert(input_key(rest[i], None) is Ok);
                }
            }
            if takes_part(last) {
                assert(inputs.filter(takes_part).map_values(own_key) =~= rest.filter(
                    takes_part,
                ).map_values(own_key).push(own_key(last)));
            }
        } else if forall|i: int|
            0 <= i < inputs.len() ==> input_key(#[trigger] inputs[i], None) is Ok {
            assert forall|i: int| 0 <= i < rest.len() implies input_key(
                #[trigger] rest[i],
                None,
            ) is Ok by {
                assert(input_key(inputs[i], None) is Ok);
            }
            assert(input_key(inputs[inputs.len() - 1], None) is Ok);
        }
    } else {
        assert(inputs.filter(takes_part).map_values(own_key) =~= Seq::empty());
    }
}

} // verus!
