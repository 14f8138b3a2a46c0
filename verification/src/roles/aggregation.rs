//! Adding up the shares of the inputs.

use vstd::prelude::*;
use crate::bip375::error;
use crate::bip375::input_key;
use crate::bip375::secrets;
use crate::bip375::utils;
use crate::bytes;
use crate::collected;
use crate::hash;
use crate::psbt;
use crate::roles::share_check;
use crate::secp;
use crate::bip375::error::{Error, OtherError};
use crate::bip375::input_key::find_input_key;
use crate::bip375::secrets::{apply_input_hash, outpoints_of};
use crate::crypto::error::{CryptoError, SecpError};
use crate::psbt::{Input, Output, Psbt};
use crate::roles::share_check::{check_input, find_scan_keys, Claim, DleqStatement, DleqVerdict};
use crate::secp::PublicKey;

verus! {

/// The shares of the inputs that take part for a scan key, one for each such input.
pub open spec fn shares_for(inputs: Seq<Input>, scan_key: Seq<u8>) -> Seq<Seq<u8>>
    decreases inputs.len(),
{
    if inputs.len() == 0 {
        Seq::empty()
    } else {
        let earlier = shares_for(inputs.drop_last(), scan_key);
        if input_key::input_point(inputs.last()) is Some {
            earlier.push(inputs.last().sp_ecdh_shares@[scan_key]@)
        } else {
            earlier
        }
    }
}

/// Each input that takes part has a share for a scan key.
pub open spec fn all_share(inputs: Seq<Input>, scan_key: Seq<u8>) -> bool {
    forall|i: int|
        0 <= i < inputs.len() && input_key::input_point(#[trigger] inputs[i]) is Some
            ==> inputs[i].sp_ecdh_shares@.contains_key(scan_key)
}

/// Gathers the shares of the inputs that take part for a scan key.
pub(crate) fn gather_shares(inputs: &Vec<Input>, scan_key: &PublicKey) -> (res: Vec<PublicKey>)
    requires
        all_share(inputs@, scan_key@),
    ensures
        secp::encodings(res@) == shares_for(inputs@, scan_key@),
{
    let mut res: Vec<PublicKey> = Vec::new();
    let mut i: usize = 0;
    assert(secp::encodings(res@) =~= Seq::empty());
    while i < inputs.len()
        invariant
            i <= inputs@.len(),
            all_share(inputs@, scan_key@),
            secp::encodings(res@) == shares_for(inputs@.take(i as int), scan_key@),
        decreases inputs@.len() - i,
    {
        let input = &inputs[i];
        assert(inputs@.take(i + 1).drop_last() =~= inputs@.take(i as int));
        if let Ok(Some(_)) = find_input_key(input, None) {
            assert(input_key::input_point(inputs@[i as int]) is Some);
            if let Some(share) = input.sp_ecdh_shares.get(scan_key) {
                let ghost before = secp::encodings(res@);
                res.push(*share);
                assert(secp::encodings(res@) =~= before.push(share@));
            }
        }
        i += 1;
    }
    assert(inputs@.take(i as int) =~= inputs@);
    res
}

/// The secret for a scan key: the sum of the shares, times the hash over the inputs.
pub open spec fn secret_for(inputs: Seq<Input>, key_sum: Seq<u8>, scan_key: Seq<u8>) -> Result<
    Seq<u8>,
    Error,
> {
    match secp::sum_points(shares_for(inputs, scan_key)) {
        None => Err(error::no_sum()),
        Some(sum) => match secrets::hash_applied(sum, psbt::outpoints(inputs), key_sum) {
            None => Err(
                Error::Other(
                    OtherError::InputHash(secrets::hash_failure(psbt::outpoints(inputs), key_sum)),
                ),
            ),
            Some(secret) => Ok(secret),
        },
    }
}

/// Computes the secret for a scan key.
pub(crate) fn compute_secret(
    inputs: &Vec<Input>,
    key_sum: &PublicKey,
    scan_key: &PublicKey,
) -> (res: Result<PublicKey, Error>)
    requires
        inputs@.len() > 0,
        all_share(inputs@, scan_key@),
    ensures
        match res {
            Ok(secret) => secret_for(inputs@, key_sum@, scan_key@) == Ok::<_, Error>(secret@),
            Err(error) => secret_for(inputs@, key_sum@, scan_key@) == Err::<Seq<u8>, _>(error),
        },
{
    let shares = gather_shares(inputs, scan_key);
    let Some(sum) = PublicKey::combine_keys(&shares) else {
        return Err(Error::Crypto(CryptoError::Secp256k1(SecpError::InvalidPublicKeySum)));
    };
    let outpoints = outpoints_of(inputs);
    match apply_input_hash(&sum, &outpoints, key_sum) {
        Ok(secret) => Ok(secret),
        Err(error) => Err(Error::Other(OtherError::InputHash(error))),
    }
}

/// The secret for each of the scan keys, with the scan key.
pub open spec fn secret_items(
    inputs: Seq<Input>,
    keys: Seq<Seq<u8>>,
    key_sum: Seq<u8>,
) -> Seq<Result<Option<(Seq<u8>, Seq<u8>)>, Error>> {
    Seq::new(
        keys.len(),
        |j: int|
            match secret_for(inputs, key_sum, keys[j]) {
                Ok(secret) => Ok(Some((keys[j], secret))),
                Err(error) => Err(error),
            },
    )
}

/// The secrets that the shares of the inputs add up to, with their scan keys, if the shares are in
/// order.
pub open spec fn aggregation(psbt: Psbt, verdicts: Seq<DleqVerdict>) -> Result<
    Seq<(Seq<u8>, Seq<u8>)>,
    Error,
> {
    match share_check::scan_keys(psbt.outputs@) {
        Err(error) => Err(error),
        Ok(keys) => match collected::collected(
            share_check::checked_inputs(psbt.inputs@, keys, verdicts),
        ) {
            Err(error) => Err(error),
            Ok(points) => match secp::sum_points(points) {
                None => Err(error::no_sum()),
                Some(key_sum) => collected::collected(secret_items(psbt.inputs@, keys, key_sum)),
            },
        },
    }
}

/// A transaction with inputs, or one that fails before they matter.
pub open spec fn can_aggregate(psbt: Psbt) -> bool {
    psbt.inputs@.len() > 0 || share_check::scan_keys(psbt.outputs@) is Err
}

/// Pairs of a scan key and a secret, by their encodings.
pub open spec fn pair_views(pairs: Seq<(PublicKey, PublicKey)>) -> Seq<(Seq<u8>, Seq<u8>)> {
    pairs.map_values(|pair: (PublicKey, PublicKey)| (pair.0@, pair.1@))
}

proof fn lemma_no_share_problem(
    input: Input,
    i: int,
    point: Seq<u8>,
    keys: Seq<Seq<u8>>,
    verdicts: Seq<DleqVerdict>,
    j: int,
)
    requires
        share_check::first_share_problem(input, i, point, keys, verdicts) is None,
        0 <= j < keys.len(),
    ensures
        share_check::share_problem(input, i, point, keys[j], verdicts) is None,
    decreases keys.len(),
{
    if j < keys.len() - 1 {
        lemma_no_share_problem(input, i, point, keys.drop_last(), verdicts, j);
    }
}

/// Where the inputs are in order, each has a share for each scan key.
pub proof fn lemma_all_share(
    inputs: Seq<Input>,
    keys: Seq<Seq<u8>>,
    verdicts: Seq<DleqVerdict>,
    j: int,
)
    requires
        collected::collected(share_check::checked_inputs(inputs, keys, verdicts)) is Ok,
        0 <= j < keys.len(),
    ensures
        all_share(inputs, keys[j]),
{
    let items = share_check::checked_inputs(inputs, keys, verdicts);
    collected::lemma_values(items);
    assert forall|i: int|
        0 <= i < inputs.len() && input_key::input_point(
            #[trigger] inputs[i],
        ) is Some implies inputs[i].sp_ecdh_shares@.contains_key(keys[j]) by {
        assert(items[i] is Ok);
        let point = input_key::input_point(inputs[i])->Some_0;
        lemma_no_share_problem(inputs[i], i, point, keys, verdicts, j);
    }
}

/// Finds the keys of the inputs, and checks their shares.
pub(crate) fn check_inputs(
    inputs: &Vec<Input>,
    keys: &Vec<PublicKey>,
    verdicts: &Vec<DleqVerdict>,
) -> (res: Result<Vec<PublicKey>, Error>)
    ensures
        match res {
            Ok(points) => collected::collected(
                share_check::checked_inputs(
                    inputs@,
                    secp::encodings(keys@),
                    verdicts@,
                ),
            ) == Ok::<_, Error>(secp::encodings(points@)),
            Err(error) => collected::collected(
                share_check::checked_inputs(
                    inputs@,
                    secp::encodings(keys@),
                    verdicts@,
                ),
            ) == Err::<Seq<Seq<u8>>, _>(error),
        },
{
    let ghost items = share_check::checked_inputs(
        inputs@,
        secp::encodings(keys@),
        verdicts@,
    );
    let mut points: Vec<PublicKey> = Vec::new();
    let mut i: usize = 0;
    assert(items.take(0) =~= Seq::empty());
    assert(secp::encodings(points@) =~= Seq::empty());
    while i < inputs.len()
        invariant
            i <= inputs@.len(),
            items == share_check::checked_inputs(
                inputs@,
                secp::encodings(keys@),
                verdicts@,
            ),
            collected::collected(items.take(i as int)) == Ok::<_, Error>(
                secp::encodings(points@),
            ),
        decreases inputs@.len() - i,
    {
        proof {
            collected::lemma_step(items, i as int);
            if collected::collected(items.take(i + 1)) is Err {
                collected::lemma_failure(items, i + 1);
            }
        }
        match check_input(&inputs[i], i, keys, verdicts) {
            Err(error) => return Err(error),
            Ok(None) => {},
            Ok(Some(point)) => {
                let ghost before = secp::encodings(points@);
                points.push(point);
                assert(secp::encodings(points@) =~= before.push(point@));
            },
        }
        i += 1;
    }
    assert(items.take(i as int) =~= items);
    Ok(points)
}

/// Adds up the shares of the inputs, for each scan key of the outputs.
pub(crate) fn aggregate(psbt: &Psbt, verdicts: &Vec<DleqVerdict>) -> (res: Result<
    Vec<(PublicKey, PublicKey)>,
    Error,
>)
    requires
        can_aggregate(*psbt),
    ensures
        match res {
            Ok(pairs) => aggregation(*psbt, verdicts@) == Ok::<_, Error>(pair_views(pairs@)),
            Err(error) => aggregation(*psbt, verdicts@) == Err::<Seq<(Seq<u8>, Seq<u8>)>, _>(
                error,
            ),
        },
{
    let keys = match find_scan_keys(&psbt.outputs) {
        Ok(keys) => keys,
        Err(error) => return Err(error),
    };
    let ghost views = secp::encodings(keys@);
    let points = match check_inputs(&psbt.inputs, &keys, verdicts) {
        Ok(points) => points,
        Err(error) => return Err(error),
    };
    let Some(key_sum) = PublicKey::combine_keys(&points) else {
        return Err(Error::Crypto(CryptoError::Secp256k1(SecpError::InvalidPublicKeySum)));
    };
    let ghost items = secret_items(psbt.inputs@, views, key_sum@);
    let mut pairs: Vec<(PublicKey, PublicKey)> = Vec::new();
    let mut j: usize = 0;
    assert(items.take(0) =~= Seq::empty());
    assert(pair_views(pairs@) =~= Seq::empty());
    while j < keys.len()
        invariant
            j <= keys@.len(),
            psbt.inputs@.len() > 0,
            views == secp::encodings(keys@),
            items == secret_items(psbt.inputs@, views, key_sum@),
            share_check::scan_keys(psbt.outputs@) == Ok::<_, Error>(views),
            collected::collected(
                share_check::checked_inputs(psbt.inputs@, views, verdicts@),
            ) == Ok::<_, Error>(secp::encodings(points@)),
            secp::sum_points(secp::encodings(points@)) == Some(key_sum@),
            collected::collected(items.take(j as int)) == Ok::<_, Error>(pair_views(pairs@)),
        decreases keys@.len() - j,
    {
        proof {
            lemma_all_share(psbt.inputs@, views, verdicts@, j as int);
            collected::lemma_step(items, j as int);
            if collected::collected(items.take(j + 1)) is Err {
                collected::lemma_failure(items, j + 1);
            }
        }
        let scan_key = keys[j];
        match compute_secret(&psbt.inputs, &key_sum, &scan_key) {
            Err(error) => return Err(error),
            Ok(secret) => {
                let ghost before = pair_views(pairs@);
                pairs.push((scan_key, secret));
                assert(pair_views(pairs@) =~= before.push((scan_key@, secret@)));
            },
        }
        j += 1;
    }
    assert(items.take(j as int) =~= items);
    Ok(pairs)
}

/// The pairs give no key two values.
pub open spec fn functional(pairs: Seq<(Seq<u8>, Seq<u8>)>) -> bool {
    forall|i: int, j: int|
        0 <= i < pairs.len() && 0 <= j < pairs.len() && (#[trigger] pairs[i]).0 == (
        #[trigger] pairs[j]).0 ==> pairs[i].1 == pairs[j].1
}

/// Aggregation gives one secret for a scan key, however many outputs pay to it, and gives one for
/// each silent payment output.
pub proof fn law_aggregation(psbt: Psbt, verdicts: Seq<DleqVerdict>)
    requires
        aggregation(psbt, verdicts) is Ok,
    ensures
        functional(aggregation(psbt, verdicts)->Ok_0),
        share_check::scan_keys(psbt.outputs@) is Ok,
        aggregation(psbt, verdicts)->Ok_0.len() == share_check::scan_keys(
            psbt.outputs@,
        )->Ok_0.len(),
        forall|j: int|
            0 <= j < aggregation(psbt, verdicts)->Ok_0.len() ==> (
            #[trigger] aggregation(psbt, verdicts)->Ok_0[j]).0 == share_check::scan_keys(
                psbt.outputs@,
            )->Ok_0[j],
{
    let keys = share_check::scan_keys(psbt.outputs@)->Ok_0;
    let points = collected::collected(
        share_check::checked_inputs(psbt.inputs@, keys, verdicts),
    )->Ok_0;
    let key_sum = secp::sum_points(points)->Some_0;
    let items = secret_items(psbt.inputs@, keys, key_sum);
    let pairs = aggregation(psbt, verdicts)->Ok_0;
    collected::lemma_all_values(items);
    assert forall|j: int| 0 <= j < pairs.len() implies (#[trigger] pairs[j]).0 == keys[j]
        && secret_for(psbt.inputs@, key_sum, keys[j]) == Ok::<_, Error>(pairs[j].1) by {
        assert(items[j] == Ok::<_, Error>(Some(pairs[j])));
    }
}

/// The map has the values of the pairs at their keys, and is otherwise as before.
pub open spec fn recorded(
    before: Map<Seq<u8>, PublicKey>,
    after: Map<Seq<u8>, PublicKey>,
    pairs: Seq<(Seq<u8>, Seq<u8>)>,
) -> bool {
    &&& forall|i: int|
        0 <= i < pairs.len() ==> after.contains_key((#[trigger] pairs[i]).0)
            && after[pairs[i].0]@ == pairs[i].1
    &&& forall|key: Seq<u8>|
        (forall|i: int| 0 <= i < pairs.len() ==> (#[trigger] pairs[i]).0 != key) ==> (
        #[trigger] after.contains_key(key) <==> before.contains_key(key)) && (
        before.contains_key(key) ==> after[key] == before[key])
}

/// The claim of the proof of an input for a scan key can be put together.
pub open spec fn asked(input: Input, scan_key: Seq<u8>) -> bool {
    input_key::input_point(input) is Some && share_check::has_share_and_proof(input, scan_key)
}

/// The claim of the proof of an input for a scan key.
pub open spec fn claim_of(input: Input, scan_key: Seq<u8>) -> Claim {
    share_check::input_claim(input, input_key::input_point(input)->Some_0, scan_key)
}

/// The claims of the proofs of an input for the scan keys.
pub open spec fn input_claims(input: Input, keys: Seq<Seq<u8>>) -> Seq<Claim>
    decreases keys.len(),
{
    if keys.len() == 0 {
        Seq::empty()
    } else if asked(input, keys.last()) {
        input_claims(input, keys.drop_last()).push(claim_of(input, keys.last()))
    } else {
        input_claims(input, keys.drop_last())
    }
}

/// The claims of the proofs of the inputs for the scan keys.
pub open spec fn all_claims(inputs: Seq<Input>, keys: Seq<Seq<u8>>) -> Seq<Claim>
    decreases inputs.len(),
{
    if inputs.len() == 0 {
        Seq::empty()
    } else {
        all_claims(inputs.drop_last(), keys) + input_claims(inputs.last(), keys)
    }
}

/// What statements claim.
pub open spec fn claims(statements: Seq<DleqStatement>) -> Seq<Claim> {
    statements.map_values(|statement: DleqStatement| statement@)
}

proof fn lemma_input_claims(input: Input, keys: Seq<Seq<u8>>, j: int)
    requires
        0 <= j < keys.len(),
        asked(input, keys[j]),
    ensures
        input_claims(input, keys).contains(claim_of(input, keys[j])),
    decreases keys.len(),
{
    let all = input_claims(input, keys);
    let rest = input_claims(input, keys.drop_last());
    if j == keys.len() - 1 {
        assert(all[rest.len() as int] == claim_of(input, keys[j]));
    } else {
        lemma_input_claims(input, keys.drop_last(), j);
        let c = choose|c: int| 0 <= c < rest.len() && rest[c] == claim_of(input, keys[j]);
        assert(all[c] == rest[c]);
    }
}

proof fn lemma_all_claims(inputs: Seq<Input>, keys: Seq<Seq<u8>>, i: int, j: int)
    requires
        0 <= i < inputs.len(),
        0 <= j < keys.len(),
        asked(inputs[i], keys[j]),
    ensures
        all_claims(inputs, keys).contains(claim_of(inputs[i], keys[j])),
    decreases inputs.len(),
{
    let all = all_claims(inputs, keys);
    let rest = all_claims(inputs.drop_last(), keys);
    let last = input_claims(inputs.last(), keys);
    let claim = claim_of(inputs[i], keys[j]);
    if i == inputs.len() - 1 {
        lemma_input_claims(inputs[i], keys, j);
        let c = choose|c: int| 0 <= c < last.len() && last[c] == claim;
        assert(all[rest.len() + c] == claim);
    } else {
        lemma_all_claims(inputs.drop_last(), keys, i, j);
        let c = choose|c: int| 0 <= c < rest.len() && rest[c] == claim;
        assert(all[c] == claim);
    }
}

/// With a verdict on each claim, no proof is left unchecked.
pub proof fn law_verdicts_suffice(
    psbt: Psbt,
    verdicts: Seq<DleqVerdict>,
    input_index: usize,
    scan_key: PublicKey,
)
    requires
        share_check::scan_keys(psbt.outputs@) matches Ok(keys) ==> forall|claim: Claim| #[trigger]
            all_claims(psbt.inputs@, keys).contains(claim) ==> share_check::outcome_of(
                verdicts,
                claim,
            ) is Some,
    ensures
        aggregation(psbt, verdicts) != Err::<Seq<(Seq<u8>, Seq<u8>)>, _>(
            Error::Other(OtherError::UncheckedProof { input_index, scan_key }),
        ),
{
    let unchecked = Error::Other(OtherError::UncheckedProof { input_index, scan_key });
    if let Err(error) = aggregation(psbt, verdicts) {
        if share_check::scan_keys(psbt.outputs@) is Err {
            let items = share_check::output_scan_keys(psbt.outputs@);
            collected::lemma_failure_source(items);
            let i = choose|i: int|
                0 <= i < items.len() && #[trigger] items[i] == Err::<Option<Seq<u8>>, _>(
                    error,
                );
            assert(items[i] == share_check::output_scan_key(psbt.outputs@[i], i));
        } else {
            let keys = share_check::scan_keys(psbt.outputs@)->Ok_0;
            let items = share_check::checked_inputs(psbt.inputs@, keys, verdicts);
            if collected::collected(items) is Err {
                collected::lemma_failure_source(items);
                let i = choose|i: int|
                    0 <= i < items.len() && #[trigger] items[i] == Err::<Option<Seq<u8>>, _>(
                        error,
                    );
                let input = psbt.inputs@[i];
                assert(items[i] == share_check::checked_input(input, i, keys, verdicts));
                if let Ok(Some(point)) = input_key::input_key(input, Some(i as usize)) {
                    lemma_share_problem_source(input, i, point, keys, verdicts);
                    let j = choose|j: int|
                        0 <= j < keys.len() && share_check::share_problem(
                            input,
                            i,
                            point,
                            #[trigger] keys[j],
                            verdicts,
                        ) == Some(error);
                    if asked(input, keys[j]) {
                        lemma_all_claims(psbt.inputs@, keys, i, j);
                    }
                }
            } else {
                let points = collected::collected(items)->Ok_0;
                if let Some(key_sum) = secp::sum_points(points) {
                    let pairs = secret_items(psbt.inputs@, keys, key_sum);
                    collected::lemma_failure_source(pairs);
                }
            }
        }
    }
}

proof fn lemma_share_problem_source(
    input: Input,
    i: int,
    point: Seq<u8>,
    keys: Seq<Seq<u8>>,
    verdicts: Seq<DleqVerdict>,
)
    requires
        share_check::first_share_problem(input, i, point, keys, verdicts) is Some,
    ensures
        exists|j: int|
            0 <= j < keys.len() && share_check::share_problem(
                input,
                i,
                point,
                #[trigger] keys[j],
                verdicts,
            ) == share_check::first_share_problem(input, i, point, keys, verdicts),
    decreases keys.len(),
{
    let rest = keys.drop_last();
    if share_check::first_share_problem(input, i, point, rest, verdicts) is Some {
        lemma_share_problem_source(input, i, point, rest, verdicts);
        let j = choose|j: int|
            0 <= j < rest.len() && share_check::share_problem(
                input,
                i,
                point,
                #[trigger] rest[j],
                verdicts,
            ) == share_check::first_share_problem(input, i, point, rest, verdicts);
        assert(keys[j] == rest[j]);
    } else {
        assert(keys[keys.len() - 1] == keys.last());
    }
}

/// Adds the claims of the proofs of an input.
pub(crate) fn add_claims(
    statements: &mut Vec<DleqStatement>,
    input: &Input,
    keys: &Vec<PublicKey>,
)
    ensures
        claims(final(statements)@) == claims(old(statements)@) + input_claims(
            *input,
            secp::encodings(keys@),
        ),
{
    let ghost before = claims(statements@);
    let ghost views = secp::encodings(keys@);
    let found = find_input_key(input, None);
    let mut j: usize = 0;
    assert(before + input_claims(*input, views.take(0)) =~= before);
    while j < keys.len()
        invariant
            j <= keys@.len(),
            views == secp::encodings(keys@),
            match found {
                Ok(Some(key)) => input_key::input_point(*input) == Some(key@),
                _ => input_key::input_point(*input) is None,
            },
            claims(statements@) == before + input_claims(*input, views.take(j as int)),
        decreases keys@.len() - j,
    {
        let scan_key = keys[j];
        let ghost earlier = claims(statements@);
        assert(views.take(j + 1).drop_last() =~= views.take(j as int));
        if let (Ok(Some(input_key)), Some(share), Some(proof)) = (
            &found,
            input.sp_ecdh_shares.get(&scan_key),
            input.sp_dleq_proofs.get(&scan_key),
        ) {
            statements.push(
                DleqStatement { input_key: *input_key, scan_key, share: *share, proof: *proof },
            );
            assert(claims(statements@) =~= earlier.push(claim_of(*input, scan_key@)));
        }
        assert(claims(statements@) =~= before + input_claims(*input, views.take(j + 1)));
        j += 1;
    }
    assert(views.take(j as int) =~= views);
}

/// Recording one more pair.
pub proof fn lemma_recorded(
    before: Map<Seq<u8>, PublicKey>,
    earlier: Map<Seq<u8>, PublicKey>,
    pairs: Seq<(Seq<u8>, Seq<u8>)>,
    n: int,
    secret: PublicKey,
)
    requires
        functional(pairs),
        0 <= n < pairs.len(),
        secret@ == pairs[n].1,
        recorded(before, earlier, pairs.take(n)),
    ensures
        recorded(before, earlier.insert(pairs[n].0, secret), pairs.take(n + 1)),
{
    let after = earlier.insert(pairs[n].0, secret);
    let old_pairs = pairs.take(n);
    let new_pairs = pairs.take(n + 1);
    assert forall|i: int| 0 <= i < new_pairs.len() implies after.contains_key(
        (#[trigger] new_pairs[i]).0,
    ) && after[new_pairs[i].0]@ == new_pairs[i].1 by {
        if i < n {
            assert(old_pairs[i] == new_pairs[i]);
        }
        assert(new_pairs[i] == pairs[i]);
        assert(pairs[n].0 == pairs[i].0 ==> pairs[n].1 == pairs[i].1);
    }
    assert forall|key: Seq<u8>|
        (forall|i: int| 0 <= i < new_pairs.len() ==> (#[trigger] new_pairs[i]).0 != key) implies (
    #[trigger] after.contains_key(key) <==> before.contains_key(key)) && (before.contains_key(key)
        ==> after[key] == before[key]) by {
        assert(new_pairs[n].0 != key);
        assert forall|i: int| 0 <= i < old_pairs.len() implies (#[trigger] old_pairs[i]).0
            != key by {
            assert(new_pairs[i] == old_pairs[i]);
        }
        assert(earlier.contains_key(key) <==> before.contains_key(key));
    }
}

/// An input that takes no part adds no share, whatever shares it has.
pub proof fn law_ineligible_inputs_add_no_share(
    inputs: Seq<Input>,
    input: Input,
    scan_key: Seq<u8>,
)
    requires
        utils::eligibility(input) == Ok::<_, Error>(false),
    ensures
        shares_for(inputs.push(input), scan_key) == shares_for(inputs, scan_key),
{
    assert(inputs.push(input).drop_last() =~= inputs);
}

/// Each share counts once, however many outputs pay to its scan key: with other outputs, the same
/// inputs give the same secret for a scan key.
pub proof fn law_outputs_do_not_change_sums(
    psbt: Psbt,
    other: Psbt,
    verdicts: Seq<DleqVerdict>,
    other_verdicts: Seq<DleqVerdict>,
    j: int,
    l: int,
)
    requires
        psbt.inputs@ == other.inputs@,
        aggregation(psbt, verdicts) is Ok,
        aggregation(other, other_verdicts) is Ok,
        0 <= j < aggregation(psbt, verdicts)->Ok_0.len(),
        0 <= l < aggregation(other, other_verdicts)->Ok_0.len(),
        aggregation(psbt, verdicts)->Ok_0[j].0 == aggregation(other, other_verdicts)->Ok_0[l].0,
    ensures
        aggregation(psbt, verdicts)->Ok_0[j].1 == aggregation(other, other_verdicts)->Ok_0[l].1,
{
    lemma_secret(psbt, verdicts, j);
    lemma_secret(other, other_verdicts, l);
}

/// The secret for a scan key, from the keys and the shares of the inputs.
pub proof fn lemma_secret(psbt: Psbt, verdicts: Seq<DleqVerdict>, j: int)
    requires
        aggregation(psbt, verdicts) is Ok,
        0 <= j < aggregation(psbt, verdicts)->Ok_0.len(),
    ensures
        input_key::input_keys(psbt.inputs@) is Ok,
        secp::sum_points(input_key::input_keys(psbt.inputs@)->Ok_0) is Some,
        secret_for(
            psbt.inputs@,
            secp::sum_points(input_key::input_keys(psbt.inputs@)->Ok_0)->Some_0,
            aggregation(psbt, verdicts)->Ok_0[j].0,
        ) == Ok::<_, Error>(aggregation(psbt, verdicts)->Ok_0[j].1),
{
    let keys = share_check::scan_keys(psbt.outputs@)->Ok_0;
    let checked = share_check::checked_inputs(psbt.inputs@, keys, verdicts);
    let key_sum = secp::sum_points(collected::collected(checked)->Ok_0)->Some_0;
    let items = secret_items(psbt.inputs@, keys, key_sum);
    collected::lemma_values(checked);
    collected::lemma_all_values(items);
    assert(items[j] == Ok::<_, Error>(Some(aggregation(psbt, verdicts)->Ok_0[j])));
    assert(input_key::input_key_items(psbt.inputs@) =~= checked) by {
        assert forall|k: int| 0 <= k < checked.len() implies #[trigger] checked[k]
            == input_key::input_key_items(psbt.inputs@)[k] by {
            assert(checked[k] is Ok);
        }
    }
}

/// Without silent payment outputs there is nothing to add up, and the recorded shares stay as they
/// were.
pub proof fn law_no_silent_payments(
    psbt: Psbt,
    verdicts: Seq<DleqVerdict>,
    before: Map<Seq<u8>, PublicKey>,
    after: Map<Seq<u8>, PublicKey>,
)
    requires
        forall|i: int|
            0 <= i < psbt.outputs@.len() ==> (#[trigger] psbt.outputs@[i]).sp_v0_info is None,
        aggregation(psbt, verdicts) is Ok,
        recorded(before, after, aggregation(psbt, verdicts)->Ok_0),
    ensures
        aggregation(psbt, verdicts)->Ok_0.len() == 0,
        after == before,
{
    let items = share_check::output_scan_keys(psbt.outputs@);
    assert forall|i: int| 0 <= i < items.len() implies (#[trigger] items[i]) == Ok::<
        Option<Seq<u8>>,
        Error,
    >(None) by {
        assert(psbt.outputs@[i].sp_v0_info is None);
    }
    collected::lemma_no_values(items);
    law_aggregation(psbt, verdicts);
    assert(after =~= before);
}

/// The shares of the inputs for a scan key are those of the inputs that take part with a known key,
/// one for each, in their order.
pub proof fn law_shares_for(inputs: Seq<Input>, scan_key: Seq<u8>)
    ensures
        shares_for(inputs, scan_key) == inputs.filter(
            |input: Input| input_key::input_point(input) is Some,
        ).map_values(|input: Input| input.sp_ecdh_shares@[scan_key]@),
    decreases inputs.len(),
{
    reveal(Seq::filter);
    let takes_part = |input: Input| input_key::input_point(input) is Some;
    let share = |input: Input| input.sp_ecdh_shares@[scan_key]@;
    if inputs.len() > 0 {
        let rest = inputs.drop_last();
        law_shares_for(rest, scan_key);
        if takes_part(inputs.last()) {
            assert(inputs.filter(takes_part).map_values(share) =~= rest.filter(
                takes_part,
            ).map_values(share).push(share(inputs.last())));
        }
    } else {
        assert(inputs.filter(takes_part).map_values(share) =~= Seq::empty());
    }
}

/// The secret for a scan key is what the shares of the inputs that take part are combined to, times
/// the hash over the inputs.
///
/// The result is the sum of the shares.
pub proof fn law_secret_for(inputs: Seq<Input>, key_sum: Seq<u8>, scan_key: Seq<u8>) -> (sum: Seq<
    u8,
>)
    ensures
        ({
            let shares = inputs.filter(
                |input: Input| input_key::input_point(input) is Some,
            ).map_values(|input: Input| input.sp_ecdh_shares@[scan_key]@);
            let digest = hash::input_digest(psbt::outpoints(inputs), key_sum);
            let multiplies = bytes::be_value(digest) < secp::curve_order();
            &&& secret_for(inputs, key_sum, scan_key) matches Ok(secret) ==> {
                &&& shares.len() > 0
                &&& secp::combined_points(shares) == Some(sum)
                &&& multiplies
                &&& secp::point_times(sum, digest) == Some(secret)
            }
            &&& shares.len() > 0 && secp::combined_points(shares) == Some(sum) && multiplies
                && secp::point_times(sum, digest) is Some ==> secret_for(
                inputs,
                key_sum,
                scan_key,
            ) is Ok
        }),
{
    law_shares_for(inputs, scan_key);
    secp::sum_points(shares_for(inputs, scan_key))->Some_0
}

/// Where the shares are added up, there is a secret for each silent payment output, under its scan
/// key, in their order. It is what the shares of the inputs that take part are combined to, times
/// the hash over the inputs, for which the keys of these inputs are combined.
///
/// The result is the sum of the shares and the sum of the keys.
pub proof fn law_aggregated_secret(psbt: Psbt, verdicts: Seq<DleqVerdict>, j: int) -> (res: (
    Seq<u8>,
    Seq<u8>,
))
    requires
        aggregation(psbt, verdicts) is Ok,
        0 <= j < aggregation(psbt, verdicts)->Ok_0.len(),
    ensures
        ({
            let (sum, key_sum) = res;
            let (scan_key, secret) = aggregation(psbt, verdicts)->Ok_0[j];
            let paying = psbt.outputs@.filter(|output: Output| output.sp_v0_info is Some);
            let takers = psbt.inputs@.filter(
                |input: Input| utils::eligibility(input) == Ok::<_, Error>(true),
            );
            &&& aggregation(psbt, verdicts)->Ok_0.len() == paying.len()
            &&& scan_key == paying[j].sp_v0_info->Some_0@.subrange(0, 33)
            &&& takers.len() > 0
            &&& secp::combined_points(
                takers.map_values(|input: Input| input.sp_ecdh_shares@[scan_key]@),
            ) == Some(sum)
            &&& secp::combined_points(
                takers.map_values(|input: Input| input_key::input_point(input)->Some_0),
            ) == Some(key_sum)
            &&& secp::point_times(
                sum,
                hash::input_digest(psbt::outpoints(psbt.inputs@), key_sum),
            ) == Some(secret)
        }),
{
    let (scan_key, secret) = aggregation(psbt, verdicts)->Ok_0[j];
    law_aggregation(psbt, verdicts);
    lemma_secret(psbt, verdicts, j);
    share_check::law_scan_keys(psbt.outputs@);
    input_key::law_input_keys(psbt.inputs@);
    let key_sum = secp::sum_points(input_key::input_keys(psbt.inputs@)->Ok_0)->Some_0;
    let sum = law_secret_for(psbt.inputs@, key_sum, scan_key);
    lemma_same_takers(psbt.inputs@);
    (sum, key_sum)
}

/// Where the keys of all inputs that take part are known, those with a key are those that take
/// part.
pub proof fn lemma_same_takers(inputs: Seq<Input>)
    requires
        forall|i: int|
            0 <= i < inputs.len() ==> input_key::input_key(#[trigger] inputs[i], None) is Ok,
    ensures
        inputs.filter(|input: Input| input_key::input_point(input) is Some) == inputs.filter(
            |input: Input| utils::eligibility(input) == Ok::<_, Error>(true),
        ),
    decreases inputs.len(),
{
    reveal(Seq::filter);
    if inputs.len() > 0 {
        let rest = inputs.drop_last();
        assert forall|i: int| 0 <= i < rest.len() implies input_key::input_key(
            #[trigger] rest[i],
            None,
        ) is Ok by {
            assert(rest[i] == inputs[i]);
        }
        lemma_same_takers(rest);
        assert(input_key::input_key(inputs[inputs.len() - 1], None) is Ok);
    }
}

/// Shares are added up only where each input that takes part has a share and a proof for each scan
/// key of the outputs, and the first verdict on that proof says that it is right.
pub proof fn law_aggregated_shares_are_proved(
    psbt: Psbt,
    verdicts: Seq<DleqVerdict>,
    i: int,
    j: int,
) -> (n: int)
    requires
        aggregation(psbt, verdicts) is Ok,
        0 <= i < psbt.inputs@.len(),
        utils::eligibility(psbt.inputs@[i]) == Ok::<_, Error>(true),
        0 <= j < aggregation(psbt, verdicts)->Ok_0.len(),
    ensures
        ({
            let input = psbt.inputs@[i];
            let scan_key = aggregation(psbt, verdicts)->Ok_0[j].0;
            let claim = Claim {
                input_key: input_key::input_point(input)->Some_0,
                scan_key,
                share: input.sp_ecdh_shares@[scan_key]@,
                proof: input.sp_dleq_proofs@[scan_key].0@,
            };
            &&& input_key::input_point(input) is Some
            &&& input.sp_ecdh_shares@.contains_key(scan_key)
            &&& input.sp_dleq_proofs@.contains_key(scan_key)
            &&& 0 <= n < verdicts.len()
            &&& verdicts[n].statement@ == claim
            &&& verdicts[n].outcome is Valid
            &&& forall|m: int|
                0 <= m < n ==> (#[trigger] verdicts[m]).statement@ != claim
        }),
{
    let input = psbt.inputs@[i];
    let keys = share_check::scan_keys(psbt.outputs@)->Ok_0;
    let items = share_check::checked_inputs(psbt.inputs@, keys, verdicts);
    law_aggregation(psbt, verdicts);
    collected::lemma_values(items);
    assert(items[i] is Ok);
    input_key::law_input_key(input, Some(i as usize));
    let point = input_key::input_point(input)->Some_0;
    lemma_no_share_problem(input, i, point, keys, verdicts, j);
    let claim = share_check::input_claim(input, point, keys[j]);
    share_check::law_first_verdict(verdicts, claim);
    choose|n: int|
        {
            &&& 0 <= n < verdicts.len()
            &&& (#[trigger] verdicts[n]).statement@ == claim
            &&& verdicts[n].outcome == share_check::outcome_of(verdicts, claim)->Some_0
            &&& forall|m: int| 0 <= m < n ==> (#[trigger] verdicts[m]).statement@ != claim
        }
}

/// Shares that are in order are added up: where the scan keys and the keys of the inputs can be
/// read, the share of each input that takes part has no problem, and the sums and the secrets are
/// there.
pub proof fn law_shares_in_order_are_added(psbt: Psbt, verdicts: Seq<DleqVerdict>)
    requires
        share_check::scan_keys(psbt.outputs@) is Ok,
        input_key::input_keys(psbt.inputs@) is Ok,
        secp::sum_points(input_key::input_keys(psbt.inputs@)->Ok_0) is Some,
        forall|i: int, j: int|
            0 <= i < psbt.inputs@.len() && 0 <= j < share_check::scan_keys(
                psbt.outputs@,
            )->Ok_0.len() ==> (input_key::input_point(#[trigger] psbt.inputs@[i]) matches Some(
                point,
            ) ==> share_check::share_problem(
                psbt.inputs@[i],
                i,
                point,
                #[trigger] share_check::scan_keys(psbt.outputs@)->Ok_0[j],
                verdicts,
            ) is None),
        forall|j: int|
            0 <= j < share_check::scan_keys(psbt.outputs@)->Ok_0.len() ==> secret_for(
                psbt.inputs@,
                secp::sum_points(input_key::input_keys(psbt.inputs@)->Ok_0)->Some_0,
                #[trigger] share_check::scan_keys(psbt.outputs@)->Ok_0[j],
            ) is Ok,
    ensures
        aggregation(psbt, verdicts) is Ok,
{
    let inputs = psbt.inputs@;
    let keys = share_check::scan_keys(psbt.outputs@)->Ok_0;
    let items = share_check::checked_inputs(inputs, keys, verdicts);
    let key_items = input_key::input_key_items(inputs);
    collected::lemma_values(key_items);
    assert forall|i: int| 0 <= i < inputs.len() implies #[trigger] items[i] == key_items[i] by {
        assert(key_items[i] is Ok);
        input_key::law_input_key(inputs[i], Some(i as usize));
        if let Some(point) = input_key::input_point(inputs[i]) {
            assert forall|j: int| 0 <= j < keys.len() implies share_check::share_problem(
                inputs[i],
                i,
                point,
                #[trigger] keys[j],
                verdicts,
            ) is None by {
                assert(inputs[i] == psbt.inputs@[i]);
            }
            share_check::law_first_share_problem(inputs[i], i, point, keys, verdicts);
        }
    }
    assert(items =~= key_items);
    let key_sum = secp::sum_points(input_key::input_keys(inputs)->Ok_0)->Some_0;
    let pairs = secret_items(inputs, keys, key_sum);
    if collected::collected(pairs) is Err {
        collected::lemma_failure_source(pairs);
        let j = choose|j: int|
            0 <= j < pairs.len() && #[trigger] pairs[j] == Err::<Option<(Seq<u8>, Seq<u8>)>, _>(
                collected::collected(pairs)->Err_0,
            );
        assert(secret_for(inputs, key_sum, keys[j]) is Ok);
    }
}

/// Recorded shares are those that were recorded before and the new ones, which take their place.
pub proof fn law_recorded(
    before: Map<Seq<u8>, PublicKey>,
    after: Map<Seq<u8>, PublicKey>,
    pairs: Seq<(Seq<u8>, Seq<u8>)>,
    scan_key: Seq<u8>,
)
    requires
        recorded(before, after, pairs),
    ensures
        after.contains_key(scan_key) <==> before.contains_key(scan_key) || exists|i: int|
            0 <= i < pairs.len() && (#[trigger] pairs[i]).0 == scan_key,
        forall|i: int|
            0 <= i < pairs.len() && (#[trigger] pairs[i]).0 == scan_key ==> after[scan_key]@
                == pairs[i].1,
        (forall|i: int| 0 <= i < pairs.len() ==> (#[trigger] pairs[i]).0 != scan_key)
            && before.contains_key(scan_key) ==> after[scan_key] == before[scan_key],
{
    if exists|i: int| 0 <= i < pairs.len() && (#[trigger] pairs[i]).0 == scan_key {
        let i = choose|i: int| 0 <= i < pairs.len() && (#[trigger] pairs[i]).0 == scan_key;
        assert(after.contains_key(pairs[i].0));
    } else {
        assert(after.contains_key(scan_key) <==> before.contains_key(scan_key));
    }
}

/// The claims that are asked for are those of the inputs that take part, for each scan key for which
/// the input has a share and a proof; and no others.
pub proof fn law_claims_are_asked(inputs: Seq<Input>, keys: Seq<Seq<u8>>, claim: Claim)
    ensures
        all_claims(inputs, keys).contains(claim) <==> exists|i: int, j: int|
            {
                &&& 0 <= i < inputs.len()
                &&& 0 <= j < keys.len()
                &&& input_key::input_point(#[trigger] inputs[i]) is Some
                &&& inputs[i].sp_ecdh_shares@.contains_key(#[trigger] keys[j])
                &&& inputs[i].sp_dleq_proofs@.contains_key(keys[j])
                &&& claim == (Claim {
                    input_key: input_key::input_point(inputs[i])->Some_0,
                    scan_key: keys[j],
                    share: inputs[i].sp_ecdh_shares@[keys[j]]@,
                    proof: inputs[i].sp_dleq_proofs@[keys[j]].0@,
                })
            },
{
    if all_claims(inputs, keys).contains(claim) {
        let i = lemma_claim_source(inputs, keys, claim);
        let j = lemma_input_claim_source(inputs[i], keys, claim);
        assert(asked(inputs[i], keys[j]));
    }
    assert forall|i: int, j: int|
        {
            &&& 0 <= i < inputs.len()
            &&& 0 <= j < keys.len()
            &&& input_key::input_point(#[trigger] inputs[i]) is Some
            &&& inputs[i].sp_ecdh_shares@.contains_key(#[trigger] keys[j])
            &&& inputs[i].sp_dleq_proofs@.contains_key(keys[j])
        } implies all_claims(inputs, keys).contains(claim_of(inputs[i], keys[j])) by {
        assert(asked(inputs[i], keys[j]));
        lemma_all_claims(inputs, keys, i, j);
    }
}

proof fn lemma_input_claim_source(input: Input, keys: Seq<Seq<u8>>, claim: Claim) -> (j: int)
    requires
        input_claims(input, keys).contains(claim),
    ensures
        0 <= j < keys.len(),
        asked(input, keys[j]),
        claim == claim_of(input, keys[j]),
    decreases keys.len(),
{
    let all = input_claims(input, keys);
    let c = choose|c: int| 0 <= c < all.len() && all[c] == claim;
    let rest = input_claims(input, keys.drop_last());
    if keys.len() > 0 && c < rest.len() {
        assert(rest[c] == claim);
        lemma_input_claim_source(input, keys.drop_last(), claim)
    } else {
        keys.len() - 1
    }
}

proof fn lemma_claim_source(inputs: Seq<Input>, keys: Seq<Seq<u8>>, claim: Claim) -> (i: int)
    requires
        all_claims(inputs, keys).contains(claim),
    ensures
        0 <= i < inputs.len(),
        input_claims(inputs[i], keys).contains(claim),
    decreases inputs.len(),
{
    let all = all_claims(inputs, keys);
    let c = choose|c: int| 0 <= c < all.len() && all[c] == claim;
    let rest = all_claims(inputs.drop_last(), keys);
    if c < rest.len() {
        assert(rest[c] == claim);
        lemma_claim_source(inputs.drop_last(), keys, claim)
    } else {
        let own = input_claims(inputs.last(), keys);
        assert(own[c - rest.len()] == claim);
        inputs.len() - 1
    }
}

/// The claims of some inputs stand behind those of the inputs before them.
pub proof fn law_claims_in_order(a: Seq<Input>, b: Seq<Input>, input: Input, keys: Seq<Seq<u8>>)
    ensures
        all_claims(Seq::empty(), keys) == Seq::<Claim>::empty(),
        all_claims(seq![input], keys) == input_claims(input, keys),
        all_claims(a + b, keys) == all_claims(a, keys) + all_claims(b, keys),
    decreases b.len(),
{
    reveal_with_fuel(all_claims, 2);
    assert(seq![input].drop_last() =~= Seq::empty());
    assert(all_claims(seq![input], keys) =~= input_claims(input, keys));
    if b.len() == 0 {
        assert(a + b =~= a);
        assert(all_claims(a, keys) + all_claims(b, keys) =~= all_claims(a, keys));
    } else {
        law_claims_in_order(a, b.drop_last(), input, keys);
        assert((a + b).drop_last() =~= a + b.drop_last());
        assert((a + b).last() == b.last());
        assert(all_claims(a + b, keys) =~= all_claims(a, keys) + all_claims(b, keys));
    }
}

/// The claims of an input stand in the order of the scan keys for which it has a share and a proof,
/// where it takes part and its key is known.
pub proof fn law_input_claims(input: Input, keys: Seq<Seq<u8>>)
    ensures
        input_key::input_point(input) is None ==> input_claims(input, keys) == Seq::<
            Claim,
        >::empty(),
        input_key::input_point(input) matches Some(point) ==> input_claims(input, keys)
            == keys.filter(
            |key: Seq<u8>|
                input.sp_ecdh_shares@.contains_key(key) && input.sp_dleq_proofs@.contains_key(key),
        ).map_values(
            |key: Seq<u8>|
                Claim {
                    input_key: point,
                    scan_key: key,
                    share: input.sp_ecdh_shares@[key]@,
                    proof: input.sp_dleq_proofs@[key].0@,
                },
        ),
    decreases keys.len(),
{
    reveal(Seq::filter);
    if keys.len() > 0 {
        law_input_claims(input, keys.drop_last());
    }
    if let Some(point) = input_key::input_point(input) {
        let held = |key: Seq<u8>|
            input.sp_ecdh_shares@.contains_key(key) && input.sp_dleq_proofs@.contains_key(key);
        let claim = |key: Seq<u8>|
            Claim {
                input_key: point,
                scan_key: key,
                share: input.sp_ecdh_shares@[key]@,
                proof: input.sp_dleq_proofs@[key].0@,
            };
        if keys.len() == 0 {
            assert(keys.filter(held).map_values(claim) =~= Seq::empty());
        } else if held(keys.last()) {
            assert(keys.filter(held).map_values(claim) =~= keys.drop_last().filter(
                held,
            ).map_values(claim).push(claim(keys.last())));
        }
    }
}

/// Each statement stands for its claim, in their order.
pub proof fn law_claims(statements: Seq<DleqStatement>, i: int)
    requires
        0 <= i < statements.len(),
    ensures
        claims(statements).len() == statements.len(),
        claims(statements)[i].input_key == statements[i].input_key@,
        claims(statements)[i].scan_key == statements[i].scan_key@,
        claims(statements)[i].share == statements[i].share@,
        claims(statements)[i].proof == statements[i].proof.0@,
{
}

/// Shares can be added up wherever there are inputs, and without inputs only the addresses of the
/// outputs can fail.
pub proof fn law_can_aggregate(psbt: Psbt)
    ensures
        psbt.inputs@.len() > 0 ==> can_aggregate(psbt),
        psbt.inputs@.len() == 0 ==> (can_aggregate(psbt) <==> exists|i: int|
            {
                &&& 0 <= i < psbt.outputs@.len()
                &&& (#[trigger] psbt.outputs@[i]).sp_v0_info matches Some(info)
                &&& info@.len() != 66 || !secp::valid_point(info@.subrange(0, 33))
            }),
{
    share_check::law_scan_keys(psbt.outputs@);
}

} // verus!
