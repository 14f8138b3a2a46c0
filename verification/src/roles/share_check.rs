//! Checks of the shares that inputs give for the scan keys of the outputs.

use vstd::prelude::*;
use crate::bip375::error;
use crate::bip375::input_key;
use crate::bip375::types;
use crate::collected;
use crate::secp;
use crate::bip375::error::{Error, FieldDataError, OtherError};
use crate::bip375::input_key::find_input_key;
use crate::bytes::bytes_equal;
use crate::crypto::error::{CryptoError, SecpError};
use crate::psbt::{DleqProof, Input, Output};
use crate::secp::PublicKey;

verus! {

/// The scan key of an output; `None` for an output that is no silent payment.
pub open spec fn output_scan_key(output: Output, i: int) -> Result<Option<Seq<u8>>, Error> {
    match output.sp_v0_info {
        None => Ok(None),
        Some(info) => if info@.len() != 66 {
            Err(
                Error::InvalidFieldData(
                    FieldDataError::SpInfoLength {
                        output_index: Some(i as usize),
                        length: info@.len() as usize,
                    },
                ),
            )
        } else if !secp::valid_point(types::first_key(info@)) {
            Err(error::malformed_key())
        } else {
            Ok(Some(types::first_key(info@)))
        },
    }
}

/// What `output_scan_key` gives for each output.
pub open spec fn output_scan_keys(outputs: Seq<Output>) -> Seq<Result<Option<Seq<u8>>, Error>> {
    Seq::new(outputs.len(), |i: int| output_scan_key(outputs[i], i))
}

/// The scan keys of the silent payment outputs, one for each output.
pub open spec fn scan_keys(outputs: Seq<Output>) -> Result<Seq<Seq<u8>>, Error> {
    collected::collected(output_scan_keys(outputs))
}

/// Reads the scan keys of the silent payment outputs.
pub(crate) fn find_scan_keys(outputs: &Vec<Output>) -> (res: Result<Vec<PublicKey>, Error>)
    ensures
        match res {
            Ok(keys) => scan_keys(outputs@) == Ok::<_, Error>(secp::encodings(keys@)),
            Err(error) => scan_keys(outputs@) == Err::<Seq<Seq<u8>>, _>(error),
        },
{
    let ghost items = output_scan_keys(outputs@);
    let mut keys: Vec<PublicKey> = Vec::new();
    let mut i: usize = 0;
    assert(items.take(0) =~= Seq::empty());
    assert(secp::encodings(keys@) =~= Seq::empty());
    while i < outputs.len()
        invariant
            i <= outputs@.len(),
            items == output_scan_keys(outputs@),
            collected::collected(items.take(i as int)) == Ok::<_, Error>(secp::encodings(keys@)),
        decreases outputs@.len() - i,
    {
        proof {
            collected::lemma_step(items, i as int);
            assert(items[i as int] == output_scan_key(outputs@[i as int], i as int));
            if collected::collected(items.take(i + 1)) is Err {
                collected::lemma_failure(items, i + 1);
            }
        }
        if let Some(info) = &outputs[i].sp_v0_info {
            if info.len() != 66 {
                return Err(
                    Error::InvalidFieldData(
                        FieldDataError::SpInfoLength {
                            output_index: Some(i),
                            length: info.len(),
                        },
                    ),
                );
            }
            let Some(scan_key) = PublicKey::read_at(info.as_slice(), 0) else {
                return Err(Error::Crypto(CryptoError::Secp256k1(SecpError::InvalidPublicKey)));
            };
            let ghost before = secp::encodings(keys@);
            keys.push(scan_key);
            assert(secp::encodings(keys@) =~= before.push(scan_key@));
        }
        i += 1;
    }
    assert(items.take(i as int) =~= items);
    Ok(keys)
}

/// What a proof of equal discrete logarithms claims: the share is the scan key times the secret of
/// the input's key.
#[derive(Clone, Copy, Debug, PartialEq, Eq)]
pub struct DleqStatement {
    pub input_key: PublicKey,
    pub scan_key: PublicKey,
    pub share: PublicKey,
    pub proof: DleqProof,
}

/// A claim, by the encodings of its keys.
pub struct Claim {
    pub input_key: Seq<u8>,
    pub scan_key: Seq<u8>,
    pub share: Seq<u8>,
    pub proof: Seq<u8>,
}

impl View for DleqStatement {
    type V = Claim;

    open spec fn view(&self) -> Claim {
        Claim {
            input_key: self.input_key@,
            scan_key: self.scan_key@,
            share: self.share@,
            proof: self.proof.0@,
        }
    }
}

impl DleqStatement {
    /// Whether two statements claim the same.
    fn same(&self, other: &DleqStatement) -> (res: bool)
        ensures
            res == (self@ == other@),
    {
        self.input_key.same(&other.input_key) && self.scan_key.same(&other.scan_key)
            && self.share.same(&other.share) && bytes_equal(&self.proof.0, &other.proof.0)
    }
}

/// How the check of a proof ended.
#[derive(Clone, Debug, PartialEq, Eq)]
pub enum DleqOutcome {
    /// The proof is right.
    Valid,
    /// The proof is wrong.
    Invalid,
    /// The check failed, for this reason.
    Failed(String),
}

/// The outcome of the check of a proof.
#[derive(Clone, Debug, PartialEq, Eq)]
pub struct DleqVerdict {
    pub statement: DleqStatement,
    pub outcome: DleqOutcome,
}

/// What the verdicts say of a claim: the first one on it.
pub open spec fn outcome_of(verdicts: Seq<DleqVerdict>, claim: Claim) -> Option<DleqOutcome>
    decreases verdicts.len(),
{
    if verdicts.len() == 0 {
        None
    } else if verdicts[0].statement@ == claim {
        Some(verdicts[0].outcome)
    } else {
        outcome_of(verdicts.drop_first(), claim)
    }
}

fn find_outcome<'a>(verdicts: &'a Vec<DleqVerdict>, statement: &DleqStatement) -> (res: Option<
    &'a DleqOutcome,
>)
    ensures
        match res {
            Some(outcome) => outcome_of(verdicts@, statement@) == Some(*outcome),
            None => outcome_of(verdicts@, statement@) is None,
        },
{
    let mut i: usize = 0;
    assert(verdicts@.skip(0) =~= verdicts@);
    while i < verdicts.len()
        invariant
            i <= verdicts@.len(),
            outcome_of(verdicts@, statement@) == outcome_of(
                verdicts@.skip(i as int),
                statement@,
            ),
        decreases verdicts@.len() - i,
    {
        assert(verdicts@.skip(i as int).drop_first() =~= verdicts@.skip(i + 1));
        if verdicts[i].statement.same(statement) {
            return Some(&verdicts[i].outcome);
        }
        i += 1;
    }
    None
}

/// What the proof of an input for a scan key claims.
pub open spec fn input_claim(input: Input, point: Seq<u8>, scan_key: Seq<u8>) -> Claim {
    Claim {
        input_key: point,
        scan_key,
        share: input.sp_ecdh_shares@[scan_key]@,
        proof: input.sp_dleq_proofs@[scan_key].0@,
    }
}

/// An input has a share and a proof for a scan key.
pub open spec fn has_share_and_proof(input: Input, scan_key: Seq<u8>) -> bool {
    input.sp_ecdh_shares@.contains_key(scan_key) && input.sp_dleq_proofs@.contains_key(scan_key)
}

/// What is wrong with the share of an input for a scan key.
pub open spec fn share_problem(
    input: Input,
    i: int,
    point: Seq<u8>,
    key: Seq<u8>,
    verdicts: Seq<DleqVerdict>,
) -> Option<Error> {
    let input_index = i as usize;
    let scan_key = secp::key_of(key);
    if !input.sp_ecdh_shares@.contains_key(key) {
        Some(Error::Other(OtherError::MissingInputShare { input_index, scan_key }))
    } else if !input.sp_dleq_proofs@.contains_key(key) {
        Some(Error::Other(OtherError::MissingInputProof { input_index, scan_key }))
    } else {
        match outcome_of(verdicts, input_claim(input, point, key)) {
            Some(DleqOutcome::Valid) => None,
            Some(DleqOutcome::Invalid) => Some(
                Error::Other(OtherError::InvalidProof { input_index, scan_key }),
            ),
            Some(DleqOutcome::Failed(reason)) => Some(
                Error::Other(OtherError::DleqCheckFailed(reason)),
            ),
            None => Some(Error::Other(OtherError::UncheckedProof { input_index, scan_key })),
        }
    }
}

/// The first problem with the shares of an input.
pub open spec fn first_share_problem(
    input: Input,
    i: int,
    point: Seq<u8>,
    keys: Seq<Seq<u8>>,
    verdicts: Seq<DleqVerdict>,
) -> Option<Error>
    decreases keys.len(),
{
    if keys.len() == 0 {
        None
    } else {
        match first_share_problem(input, i, point, keys.drop_last(), verdicts) {
            Some(error) => Some(error),
            None => share_problem(input, i, point, keys.last(), verdicts),
        }
    }
}

/// The key of an input whose shares are in order.
pub open spec fn checked_input(
    input: Input,
    i: int,
    keys: Seq<Seq<u8>>,
    verdicts: Seq<DleqVerdict>,
) -> Result<Option<Seq<u8>>, Error> {
    match input_key::input_key(input, Some(i as usize)) {
        Ok(Some(point)) => match first_share_problem(input, i, point, keys, verdicts) {
            Some(error) => Err(error),
            None => Ok(Some(point)),
        },
        other => other,
    }
}

/// What `checked_input` gives for each input.
pub open spec fn checked_inputs(
    inputs: Seq<Input>,
    keys: Seq<Seq<u8>>,
    verdicts: Seq<DleqVerdict>,
) -> Seq<Result<Option<Seq<u8>>, Error>> {
    Seq::new(inputs.len(), |i: int| checked_input(inputs[i], i, keys, verdicts))
}

/// Checks the share of an input for a scan key.
fn check_share(
    input: &Input,
    input_index: usize,
    input_key: &PublicKey,
    key: &PublicKey,
    verdicts: &Vec<DleqVerdict>,
) -> (res: Result<(), Error>)
    ensures
        match res {
            Ok(_) => share_problem(*input, input_index as int, input_key@, key@, verdicts@) is None,
            Err(error) => share_problem(*input, input_index as int, input_key@, key@, verdicts@)
                == Some(error),
        },
{
    let scan_key = *key;
    proof {
        secp::lemma_key_of(scan_key);
    }
    let Some(share) = input.sp_ecdh_shares.get(key) else {
        return Err(Error::Other(OtherError::MissingInputShare { input_index, scan_key }));
    };
    let Some(proof) = input.sp_dleq_proofs.get(key) else {
        return Err(Error::Other(OtherError::MissingInputProof { input_index, scan_key }));
    };
    let statement = DleqStatement {
        input_key: *input_key,
        scan_key,
        share: *share,
        proof: *proof,
    };
    match find_outcome(verdicts, &statement) {
        Some(DleqOutcome::Valid) => Ok(()),
        Some(DleqOutcome::Invalid) => Err(
            Error::Other(OtherError::InvalidProof { input_index, scan_key }),
        ),
        Some(DleqOutcome::Failed(reason)) => Err(
            Error::Other(OtherError::DleqCheckFailed(reason.clone())),
        ),
        None => Err(Error::Other(OtherError::UncheckedProof { input_index, scan_key })),
    }
}

proof fn lemma_share_problem_persists(
    input: Input,
    i: int,
    point: Seq<u8>,
    keys: Seq<Seq<u8>>,
    verdicts: Seq<DleqVerdict>,
    n: int,
)
    requires
        0 <= n <= keys.len(),
        first_share_problem(input, i, point, keys.take(n), verdicts) is Some,
    ensures
        first_share_problem(input, i, point, keys, verdicts) == first_share_problem(
            input,
            i,
            point,
            keys.take(n),
            verdicts,
        ),
    decreases keys.len() - n,
{
    if n == keys.len() {
        assert(keys.take(n) =~= keys);
    } else {
        assert(keys.take(n + 1).drop_last() =~= keys.take(n));
        lemma_share_problem_persists(input, i, point, keys, verdicts, n + 1);
    }
}

/// Finds the key of an input, and checks its shares.
pub(crate) fn check_input(
    input: &Input,
    input_index: usize,
    keys: &Vec<PublicKey>,
    verdicts: &Vec<DleqVerdict>,
) -> (res: Result<Option<PublicKey>, Error>)
    ensures
        match res {
            Ok(Some(key)) => checked_input(
                *input,
                input_index as int,
                secp::encodings(keys@),
                verdicts@,
            ) == Ok::<_, Error>(Some(key@)),
            Ok(None) => checked_input(*input, input_index as int, secp::encodings(keys@), verdicts@)
                == Ok::<Option<Seq<u8>>, Error>(None),
            Err(error) => checked_input(
                *input,
                input_index as int,
                secp::encodings(keys@),
                verdicts@,
            ) == Err::<Option<Seq<u8>>, _>(error),
        },
{
    let key = match find_input_key(input, Some(input_index)) {
        Ok(Some(key)) => key,
        Ok(None) => return Ok(None),
        Err(error) => return Err(error),
    };
    let ghost views = secp::encodings(keys@);
    let mut j: usize = 0;
    while j < keys.len()
        invariant
            j <= keys@.len(),
            views == secp::encodings(keys@),
            first_share_problem(
                *input,
                input_index as int,
                key@,
                views.take(j as int),
                verdicts@,
            ) is None,
            input_key::input_key(*input, Some(input_index)) == Ok::<_, Error>(Some(key@)),
        decreases keys@.len() - j,
    {
        assert(views.take(j + 1).drop_last() =~= views.take(j as int));
        if let Err(error) = check_share(input, input_index, &key, &keys[j], verdicts) {
            proof {
                lemma_share_problem_persists(
                    *input,
                    input_index as int,
                    key@,
                    views,
                    verdicts@,
                    j + 1,
                );
            }
            return Err(error);
        }
        j += 1;
    }
    assert(views.take(j as int) =~= views);
    Ok(Some(key))
}

/// What the verdicts say of a claim is what the first verdict on it says, and nothing where there is
/// none.
pub proof fn law_first_verdict(verdicts: Seq<DleqVerdict>, claim: Claim)
    ensures
        outcome_of(verdicts, claim) is None <==> forall|i: int|
            0 <= i < verdicts.len() ==> (#[trigger] verdicts[i]).statement@ != claim,
        outcome_of(verdicts, claim) matches Some(outcome) ==> exists|n: int|
            {
                &&& 0 <= n < verdicts.len()
                &&& (#[trigger] verdicts[n]).statement@ == claim
                &&& verdicts[n].outcome == outcome
                &&& forall|i: int| 0 <= i < n ==> (#[trigger] verdicts[i]).statement@ != claim
            },
    decreases verdicts.len(),
{
    if verdicts.len() > 0 {
        let rest = verdicts.drop_first();
        law_first_verdict(rest, claim);
        assert forall|i: int| 0 <= i < rest.len() implies #[trigger] rest[i] == verdicts[i + 1] by {
        }
        if verdicts[0].statement@ == claim {
            assert(verdicts[0].outcome == verdicts[0].outcome);
        } else if outcome_of(rest, claim) is None {
            assert forall|i: int| 0 <= i < verdicts.len() implies (
            #[trigger] verdicts[i]).statement@ != claim by {
                if i > 0 {
                    assert(rest[i - 1] == verdicts[i]);
                }
            }
        } else {
            let outcome = outcome_of(rest, claim)->Some_0;
            let n = choose|n: int|
                {
                    &&& 0 <= n < rest.len()
                    &&& (#[trigger] rest[n]).statement@ == claim
                    &&& rest[n].outcome == outcome
                    &&& forall|i: int| 0 <= i < n ==> (#[trigger] rest[i]).statement@ != claim
                };
            assert(verdicts[n + 1] == rest[n]);
            assert forall|i: int| 0 <= i < n + 1 implies (#[trigger] verdicts[i]).statement@
                != claim by {
                if i > 0 {
                    assert(rest[i - 1] == verdicts[i]);
                }
            }
        }
    }
}

/// A statement claims of its input key, its scan key, its share and its proof.
pub proof fn law_claim(statement: DleqStatement)
    ensures
        statement@.input_key == statement.input_key@,
        statement@.scan_key == statement.scan_key@,
        statement@.share == statement.share@,
        statement@.proof == statement.proof.0@,
{
}

/// The share of an input for a scan key is in order exactly where it is there, its proof is there,
/// and the first verdict on that proof says that it is right. Otherwise the error says which of
/// these does not hold, and names the input and the scan key.
pub proof fn law_share_problem(
    input: Input,
    i: usize,
    point: Seq<u8>,
    scan_key: PublicKey,
    verdicts: Seq<DleqVerdict>,
)
    ensures
        ({
            let shares = input.sp_ecdh_shares@;
            let proofs = input.sp_dleq_proofs@;
            let claim = Claim {
                input_key: point,
                scan_key: scan_key@,
                share: shares[scan_key@]@,
                proof: proofs[scan_key@].0@,
            };
            share_problem(input, i as int, point, scan_key@, verdicts) == (
            if !shares.contains_key(scan_key@) {
                Some(
                    Error::Other(OtherError::MissingInputShare { input_index: i, scan_key }),
                )
            } else if !proofs.contains_key(scan_key@) {
                Some(
                    Error::Other(OtherError::MissingInputProof { input_index: i, scan_key }),
                )
            } else {
                match outcome_of(verdicts, claim) {
                    None => Some(
                        Error::Other(OtherError::UncheckedProof { input_index: i, scan_key }),
                    ),
                    Some(DleqOutcome::Invalid) => Some(
                        Error::Other(OtherError::InvalidProof { input_index: i, scan_key }),
                    ),
                    Some(DleqOutcome::Failed(reason)) => Some(
                        Error::Other(OtherError::DleqCheckFailed(reason)),
                    ),
                    Some(DleqOutcome::Valid) => None,
                }
            })
        }),
{
    secp::lemma_key_of(scan_key);
}

/// The first problem of an input is that of the first scan key that has one.
pub proof fn law_first_share_problem(
    input: Input,
    i: int,
    point: Seq<u8>,
    keys: Seq<Seq<u8>>,
    verdicts: Seq<DleqVerdict>,
)
    ensures
        first_share_problem(input, i, point, keys, verdicts) is None <==> forall|j: int|
            0 <= j < keys.len() ==> share_problem(
                input,
                i,
                point,
                #[trigger] keys[j],
                verdicts,
            ) is None,
        first_share_problem(input, i, point, keys, verdicts) matches Some(error) ==> exists|
            n: int,
        |
            {
                &&& 0 <= n < keys.len()
                &&& share_problem(input, i, point, #[trigger] keys[n], verdicts) == Some(error)
                &&& forall|j: int|
                    0 <= j < n ==> share_problem(
                        input,
                        i,
                        point,
                        #[trigger] keys[j],
                        verdicts,
                    ) is None
            },
    decreases keys.len(),
{
    if keys.len() > 0 {
        let rest = keys.drop_last();
        law_first_share_problem(input, i, point, rest, verdicts);
        assert forall|j: int| 0 <= j < rest.len() implies #[trigger] rest[j] == keys[j] by {
        }
        let last = keys.len() - 1;
        match first_share_problem(input, i, point, rest, verdicts) {
            Some(error) => {
                let n = choose|n: int|
                    {
                        &&& 0 <= n < rest.len()
                        &&& share_problem(input, i, point, #[trigger] rest[n], verdicts)
                            == Some(error)
                        &&& forall|j: int|
                            0 <= j < n ==> share_problem(
                                input,
                                i,
                                point,
                                #[trigger] rest[j],
                                verdicts,
                            ) is None
                    };
                assert(share_problem(input, i, point, keys[n], verdicts) == Some(error));
                assert forall|j: int| 0 <= j < n implies share_problem(
                    input,
                    i,
                    point,
                    #[trigger] keys[j],
                    verdicts,
                ) is None by {
                    assert(rest[j] == keys[j]);
                }
            },
            None => {
                assert forall|j: int| 0 <= j < last implies share_problem(
                    input,
                    i,
                    point,
                    #[trigger] keys[j],
                    verdicts,
                ) is None by {
                    assert(rest[j] == keys[j]);
                }
                assert(keys[last] == keys.last());
            },
        }
    }
}

/// An input is checked where it has a key, and then each of its shares is. One without a key, or
/// whose key is not known, is passed on as it is.
pub proof fn law_checked_input(
    input: Input,
    i: int,
    keys: Seq<Seq<u8>>,
    verdicts: Seq<DleqVerdict>,
)
    ensures
        ({
            let own_key = input_key::input_key(input, Some(i as usize));
            let checked = checked_input(input, i, keys, verdicts);
            &&& !(own_key matches Ok(Some(_))) ==> checked == own_key
            &&& own_key matches Ok(Some(point)) ==> {
                let problem = first_share_problem(input, i, point, keys, verdicts);
                &&& checked is Ok <==> problem is None
                &&& checked is Ok ==> checked == own_key
                &&& checked matches Err(error) ==> problem == Some(error)
            }
        }),
{
}

/// The scan keys of the outputs are the first 33 bytes of the addresses of those that have one, in
/// their order, one for each, however often one occurs. They can be read where each address has 66
/// bytes and the scan key is a point.
pub proof fn law_scan_keys(outputs: Seq<Output>)
    ensures
        scan_keys(outputs) is Ok <==> forall|i: int|
            0 <= i < outputs.len() ==> ((#[trigger] outputs[i]).sp_v0_info matches Some(info)
                ==> info@.len() == 66 && secp::valid_point(info@.subrange(0, 33))),
        scan_keys(outputs) matches Ok(keys) ==> keys == outputs.filter(
            |output: Output| output.sp_v0_info is Some,
        ).map_values(|output: Output| output.sp_v0_info->Some_0@.subrange(0, 33)),
    decreases outputs.len(),
{
    reveal(Seq::filter);
    let pays = |output: Output| output.sp_v0_info is Some;
    let scan_key = |output: Output| output.sp_v0_info->Some_0@.subrange(0, 33);
    let items = output_scan_keys(outputs);
    if outputs.len() > 0 {
        let rest = outputs.drop_last();
        let n = outputs.len() - 1;
        law_scan_keys(rest);
        assert(items.drop_last() =~= output_scan_keys(rest));
        assert(items.last() == output_scan_key(outputs[n], n));
        assert forall|i: int| 0 <= i < rest.len() implies #[trigger] rest[i] == outputs[i] by {
        }
        if scan_keys(outputs) is Ok {
            assert forall|i: int| 0 <= i < outputs.len() implies ((
            #[trigger] outputs[i]).sp_v0_info matches Some(info) ==> info@.len() == 66
                && secp::valid_point(info@.subrange(0, 33))) by {
                if i < n {
                    assert(rest[i] == outputs[i]);
                }
            }
            if pays(outputs[n]) {
                assert(outputs.filter(pays).map_values(scan_key) =~= rest.filter(pays).map_values(
                    scan_key,
                ).push(scan_key(outputs[n])));
            }
        } else if forall|i: int|
            0 <= i < outputs.len() ==> ((#[trigger] outputs[i]).sp_v0_info matches Some(info)
                ==> info@.len() == 66 && secp::valid_point(info@.subrange(0, 33))) {
            assert forall|i: int| 0 <= i < rest.len() implies ((
            #[trigger] rest[i]).sp_v0_info matches Some(info) ==> info@.len() == 66
                && secp::valid_point(info@.subrange(0, 33))) by {
                assert(rest[i] == outputs[i]);
            }
            assert(outputs[n].sp_v0_info matches Some(info) ==> info@.len() == 66
                && secp::valid_point(info@.subrange(0, 33)));
        }
    } else {
        assert(outputs.filter(pays).map_values(scan_key) =~= Seq::empty());
    }
}

} // verus!
