//! The signer: checks and adds up the shares of the inputs, and derives the silent payment outputs.

use vstd::prelude::*;
use crate::bip375::input_key;
use crate::bip375::types;
use crate::bip375::utils;
use crate::collected;
use crate::hash;
use crate::psbt;
use crate::roles::aggregation;
use crate::roles::output_scripts;
use crate::roles::payments;
use crate::roles::share_check;
use crate::roles::signatures;
use crate::roles::sp_outputs;
use crate::script;
use crate::secp;
use crate::sending;
use crate::address_map::AddressMap;
use crate::bip375::error::{Error, OtherError, PsbtStateError};
use crate::bip375::input_key::find_input_key;
use crate::bytes::copy_bytes;
use crate::psbt::{Global, Input, Output, Psbt};
use crate::roles::aggregation::{add_claims, aggregate};
use crate::roles::output_scripts::{check_keys_left, plan_scripts};
use crate::roles::payments::find_payments;
use crate::roles::share_check::{find_scan_keys, DleqStatement, DleqVerdict};
use crate::roles::signatures::{record_signatures, SpSignature};
use crate::secp::PublicKey;
use crate::sending::generate_recipient_pubkeys;

verus! {

/// The key of an input that takes part in a silent payment, and `None` for one that does not.
pub fn extract_eligible_input_pubkey(input: &Input) -> (res: Result<Option<PublicKey>, Error>)
    ensures
        match res {
            Ok(Some(key)) => input_key::input_key(*input, None) == Ok::<_, Error>(Some(key@)),
            Ok(None) => input_key::input_key(*input, None) == Ok::<Option<Seq<u8>>, Error>(None),
            Err(error) => input_key::input_key(*input, None) == Err::<Option<Seq<u8>>, _>(error),
        },
{
    find_input_key(input, None)
}

/// The keys that are derived for the outputs of a transaction can be set in it: each silent payment
/// output gets the script that pays to its own key, and no key is left.
pub proof fn law_derived_keys_can_be_set(psbt: Psbt, list: Seq<(Seq<u8>, Seq<u8>)>)
    requires
        payments::derived_keys(psbt) == Ok::<_, Error>(list),
    ensures
        output_scripts::addresses_readable(psbt.outputs@, sending::grouped(list)),
        collected::collected(
            output_scripts::output_scripts(psbt.outputs@, sending::grouped(list)),
        ) is Ok,
        !output_scripts::keys_left(psbt.outputs@, sending::grouped(list)),
        forall|i: int|
            0 <= i < psbt.outputs@.len() ==> match (#[trigger] payments::output_payments(psbt)[i]) {
                Ok(Some(payment)) => {
                    let payments = collected::collected(payments::output_payments(psbt))->Ok_0;
                    let k = sending::counter(
                        payments,
                        collected::rank(payments::output_payments(psbt), i) as int,
                    );
                    &&& sending::output_key(
                        payment.secret,
                        types::second_key(payment.info),
                        k,
                    ) matches Some(key)
                    &&& output_scripts::output_script(
                        psbt.outputs@,
                        i,
                        sending::grouped(list),
                    ) == Ok::<_, Error>(Some(script::p2tr_script(key)))
                },
                _ => psbt.outputs@[i].sp_v0_info is None,
            },
{
    let outputs = psbt.outputs@;
    let items = payments::output_payments(psbt);
    let payments = collected::collected(items)->Ok_0;
    let lists = sending::grouped(list);
    let scripts = output_scripts::output_scripts(outputs, lists);
    collected::lemma_values(items);
    assert forall|i: int| 0 <= i < items.len() implies (#[trigger] items[i]) is Ok
        && sp_outputs::makes_payment(items[i]) == (outputs[i].sp_v0_info is Some) by {
        assert(items[i] == payments::output_payment(psbt, i));
    }
    assert(sp_outputs::describes(items, outputs)) by {
        assert forall|i: int| 0 <= i < items.len() implies ((#[trigger] items[i]) matches Ok(
            Some(payment),
        ) ==> sp_outputs::output_address(outputs[i]) == Some(
            sending::address_bytes(payment.info),
        )) by {
            assert(items[i] == payments::output_payment(psbt, i));
        }
    }
    sp_outputs::law_keys_fit_outputs(items, outputs, payments, list);
    assert forall|i: int| 0 <= i < scripts.len() implies (#[trigger] scripts[i]) is Ok by {
        assert(items[i] == payments::output_payment(psbt, i));
        if let Ok(Some(payment)) = items[i] {
            assert(sp_outputs::makes_payment(items[i]));
            assert(lists.contains_key(sending::address_bytes(payment.info)));
        }
    }
    if collected::collected(scripts) is Err {
        collected::lemma_failure_source(scripts);
    }
    assert forall|address: Seq<u8>| #[trigger] lists.contains_key(address) implies
        sp_outputs::outputs_to(outputs, outputs.len() as int, address) >= lists[address].len() by {
    }
    assert forall|i: int| 0 <= i < outputs.len() implies match (#[trigger] items[i]) {
        Ok(Some(payment)) => {
            let k = sending::counter(payments, collected::rank(items, i) as int);
            &&& sending::output_key(
                payment.secret,
                types::second_key(payment.info),
                k,
            ) matches Some(key)
            &&& output_scripts::output_script(outputs, i, lists) == Ok::<_, Error>(
                Some(script::p2tr_script(key)),
            )
        },
        _ => outputs[i].sp_v0_info is None,
    } by {
        assert(items[i] == payments::output_payment(psbt, i));
        assert(scripts[i] is Ok);
    }
}

/// What adding up the shares does to a transaction, and what is returned.
pub open spec fn aggregated(
    before: Psbt,
    after: Psbt,
    verdicts: Seq<DleqVerdict>,
    res: Result<(), Error>,
) -> bool {
    match aggregation::aggregation(before, verdicts) {
        Err(error) => res == Err::<(), _>(error) && after == before,
        Ok(pairs) => {
            &&& res is Ok
            &&& after.inputs == before.inputs
            &&& after.outputs == before.outputs
            &&& after.global == (Global {
                sp_ecdh_shares: after.global.sp_ecdh_shares,
                ..before.global
            })
            &&& aggregation::recorded(
                before.global.sp_ecdh_shares@,
                after.global.sp_ecdh_shares@,
                pairs,
            )
        },
    }
}

/// The role of the signer.
pub trait SignerPsbtExt {
    /// The shares can be added up, or fail for the outputs alone.
    spec fn shares_can_be_added(&self) -> bool;

    /// The outputs can be numbered.
    spec fn can_number_outputs(&self) -> bool;

    /// The keys can be looked up by the addresses of the outputs.
    spec fn can_look_up(&self, keys: AddressMap<[u8; 32]>) -> bool;

    /// The transaction has the inputs that are signed.
    spec fn has_signed_inputs(&self, signed: Result<Vec<SpSignature>, String>) -> bool;

    /// The claims of the proofs whose verdicts `aggregate_ecdh_shares` may ask for.
    fn pending_dleq_checks(&self) -> Vec<DleqStatement>;

    /// Adds up the shares of the inputs for each scan key, applies the hash over the inputs, and
    /// makes the results global shares. The verdicts say how the checks of the proofs ended.
    fn aggregate_ecdh_shares(&mut self, verdicts: &Vec<DleqVerdict>) -> Result<(), Error>
        requires
            old(self).shares_can_be_added(),
    ;

    /// Derives the keys of the silent payment outputs, by address.
    fn compute_sp_outputs(&self) -> Result<AddressMap<[u8; 32]>, Error>
        requires
            self.can_number_outputs(),
    ;

    /// Gives the silent payment outputs scripts that pay to their keys.
    fn set_sp_scriptpubkey(&mut self, xonly_map: AddressMap<[u8; 32]>) -> Result<(), Error>
        requires
            old(self).can_look_up(xonly_map),
    ;

    /// Puts the signatures of the silent payment inputs into them, and gives the keys that they
    /// verify against. Where signing failed, `signed` holds the reason.
    fn sign_sp_inputs(&mut self, signed: Result<Vec<SpSignature>, String>) -> Result<
        Vec<[u8; 32]>,
        Error,
    >
        requires
            old(self).has_signed_inputs(signed),
    ;
}

impl SignerPsbtExt for Psbt {
    open spec fn shares_can_be_added(&self) -> bool {
        aggregation::can_aggregate(*self)
    }

    open spec fn can_number_outputs(&self) -> bool {
        self.outputs@.len() <= u32::MAX
    }

    open spec fn can_look_up(&self, keys: AddressMap<[u8; 32]>) -> bool {
        output_scripts::addresses_readable(self.outputs@, sending::key_lists(keys@))
    }

    open spec fn has_signed_inputs(&self, signed: Result<Vec<SpSignature>, String>) -> bool {
        signed matches Ok(signatures) ==> forall|i: int|
            0 <= i < signatures@.len() ==> (#[trigger] signatures@[i]).input_index
                < self.inputs@.len()
    }

    fn pending_dleq_checks(&self) -> (res: Vec<DleqStatement>)
        ensures
            match share_check::scan_keys(self.outputs@) {
                Ok(keys) => aggregation::claims(res@) == aggregation::all_claims(
                    self.inputs@,
                    keys,
                ),
                Err(_) => res@.len() == 0,
            },
    {
        let mut res: Vec<DleqStatement> = Vec::new();
        let keys = match find_scan_keys(&self.outputs) {
            Ok(keys) => keys,
            Err(_) => return res,
        };
        let ghost views = secp::encodings(keys@);
        let mut i: usize = 0;
        assert(aggregation::claims(res@) =~= Seq::empty());
        while i < self.inputs.len()
            invariant
                i <= self.inputs@.len(),
                views == secp::encodings(keys@),
                aggregation::claims(res@) == aggregation::all_claims(
                    self.inputs@.take(i as int),
                    views,
                ),
            decreases self.inputs@.len() - i,
        {
            assert(self.inputs@.take(i + 1).drop_last() =~= self.inputs@.take(i as int));
            add_claims(&mut res, &self.inputs[i], &keys);
            i += 1;
        }
        assert(self.inputs@.take(i as int) =~= self.inputs@);
        res
    }

    fn aggregate_ecdh_shares(&mut self, verdicts: &Vec<DleqVerdict>) -> (res: Result<(), Error>)
        ensures
            match aggregation::aggregation(*old(self), verdicts@) {
                Err(error) => res == Err::<(), _>(error) && *final(self) == *old(self),
                Ok(pairs) => {
                    &&& res is Ok
                    &&& final(self).inputs == old(self).inputs
                    &&& final(self).outputs == old(self).outputs
                    &&& final(self).global == (Global {
                        sp_ecdh_shares: final(self).global.sp_ecdh_shares,
                        ..old(self).global
                    })
                    &&& aggregation::recorded(
                        old(self).global.sp_ecdh_shares@,
                        final(self).global.sp_ecdh_shares@,
                        pairs,
                    )
                },
            },
            aggregated(*old(self), *final(self), verdicts@, res),
    {
        let pairs = match aggregate(self, verdicts) {
            Ok(pairs) => pairs,
            Err(error) => return Err(error),
        };
        let ghost before = self.global.sp_ecdh_shares@;
        let ghost views = aggregation::pair_views(pairs@);
        proof {
            aggregation::law_aggregation(*self, verdicts@);
        }
        let mut i: usize = 0;
        while i < pairs.len()
            invariant
                i <= pairs@.len(),
                views == aggregation::pair_views(pairs@),
                aggregation::functional(views),
                self.inputs == old(self).inputs,
                self.outputs == old(self).outputs,
                self.global == (Global {
                    sp_ecdh_shares: self.global.sp_ecdh_shares,
                    ..old(self).global
                }),
                aggregation::recorded(before, self.global.sp_ecdh_shares@, views.take(i as int)),
            decreases pairs@.len() - i,
        {
            let (scan_key, secret) = pairs[i];
            let ghost earlier = self.global.sp_ecdh_shares@;
            self.global.sp_ecdh_shares.insert(scan_key, secret);
            proof {
                aggregation::lemma_recorded(before, earlier, views, i as int, secret);
            }
            i += 1;
        }
        assert(views.take(i as int) =~= views);
        Ok(())
    }

    fn compute_sp_outputs(&self) -> (res: Result<AddressMap<[u8; 32]>, Error>)
        ensures
            match payments::derived_keys(*self) {
                Ok(list) => res matches Ok(keys) && sending::key_lists(keys@) == sending::grouped(
                    list,
                ),
                Err(error) => res == Err::<AddressMap<[u8; 32]>, _>(error),
            },
    {
        match find_payments(self) {
            Ok(recipients) => generate_recipient_pubkeys(&recipients),
            Err(error) => Err(error),
        }
    }

    fn set_sp_scriptpubkey(&mut self, xonly_map: AddressMap<[u8; 32]>) -> (res: Result<(), Error>)
        ensures
            match collected::collected(
                output_scripts::output_scripts(old(self).outputs@, sending::key_lists(xonly_map@)),
            ) {
                Err(error) => res == Err::<(), _>(error) && *final(self) == *old(self),
                Ok(_) => if output_scripts::keys_left(
                    old(self).outputs@,
                    sending::key_lists(xonly_map@),
                ) {
                    res == Err::<(), _>(Error::InvalidPsbtState(PsbtStateError::UnusedKeys))
                        && *final(self) == *old(self)
                } else {
                    res is Ok && output_scripts::scripts_set(
                        *old(self),
                        *final(self),
                        sending::key_lists(xonly_map@),
                    ) && forall|i: int|
                        0 <= i < old(self).outputs@.len() && old(
                            self,
                        ).outputs@[i].sp_v0_info is Some ==> script::p2tr(
                            (#[trigger] final(self).outputs@[i]).script_pubkey@,
                        )
                },
            },
    {
        let scripts = match plan_scripts(&self.outputs, &xonly_map) {
            Ok(scripts) => scripts,
            Err(error) => return Err(error),
        };
        if check_keys_left(&self.outputs, &xonly_map) {
            return Err(Error::InvalidPsbtState(PsbtStateError::UnusedKeys));
        }
        let ghost lists = sending::key_lists(xonly_map@);
        let ghost before = self.outputs@;
        let mut i: usize = 0;
        while i < scripts.len()
            invariant
                i <= scripts@.len() == before.len(),
                before == old(self).outputs@,
                self.outputs@.len() == before.len(),
                self.global == old(self).global,
                self.inputs == old(self).inputs,
                forall|j: int|
                    0 <= j < before.len() ==> output_scripts::planned(
                        #[trigger] scripts@[j],
                        output_scripts::output_script(before, j, lists),
                    ),
                forall|j: int|
                    0 <= j < i ==> match output_scripts::output_script(before, j, lists) {
                        Ok(Some(script)) => (#[trigger] self.outputs@[j]) == (Output {
                            script_pubkey: self.outputs@[j].script_pubkey,
                            ..before[j]
                        }) && self.outputs@[j].script_pubkey@ == script,
                        _ => self.outputs@[j] == before[j],
                    },
                forall|j: int|
                    i <= j < before.len() ==> (#[trigger] self.outputs@[j]) == before[j],
            decreases scripts@.len() - i,
        {
            assert(output_scripts::planned(
                scripts@[i as int],
                output_scripts::output_script(before, i as int, lists),
            ));
            if let Some(script) = &scripts[i] {
                self.outputs[i].script_pubkey = copy_bytes(script.as_slice());
            }
            i += 1;
        }
        self.global.tx_modifiable_flags = 0;
        proof {
            let items = output_scripts::output_scripts(before, lists);
            collected::lemma_values(items);
            assert forall|j: int|
                0 <= j < before.len() && before[j].sp_v0_info is Some implies script::p2tr(
                (#[trigger] self.outputs@[j]).script_pubkey@,
            ) by {
                let address = sending::address_bytes(before[j].sp_v0_info->Some_0@);
                let place = sp_outputs::outputs_to(before, j, address) as int;
                assert(items[j] is Ok);
                assert(lists[address][place] == xonly_map@[address][place]@);
            }
        }
        Ok(())
    }

    fn sign_sp_inputs(&mut self, signed: Result<Vec<SpSignature>, String>) -> (res: Result<
        Vec<[u8; 32]>,
        Error,
    >)
        ensures
            match signed {
                Ok(signatures) => {
                    &&& res matches Ok(keys) && keys@ == signatures::signature_keys(signatures@)
                    &&& final(self).global == old(self).global
                    &&& final(self).outputs == old(self).outputs
                    &&& signatures::signed(
                        old(self).inputs@,
                        final(self).inputs@,
                        signatures@,
                        signatures@.len() as int,
                    )
                },
                Err(reason) => res == Err::<Vec<[u8; 32]>, _>(
                    Error::Other(OtherError::Signing(reason)),
                )
                    && *final(self) == *old(self),
            },
    {
        match signed {
            Ok(signatures) => Ok(record_signatures(&mut self.inputs, &signatures)),
            Err(reason) => Err(Error::Other(OtherError::Signing(reason))),
        }
    }
}

/// Adds up the shares of the inputs as `aggregate_ecdh_shares` does; `None` where the transaction
/// has no inputs and the outputs are in order.
pub fn aggregate_spent_shares(psbt: &mut Psbt, verdicts: &Vec<DleqVerdict>) -> (res: Option<
    Result<(), Error>,
>)
    ensures
        match res {
            None => !aggregation::can_aggregate(*old(psbt)) && *final(psbt) == *old(psbt),
            Some(Err(error)) => {
                &&& aggregation::can_aggregate(*old(psbt))
                &&& aggregation::aggregation(*old(psbt), verdicts@) == Err::<
                    Seq<(Seq<u8>, Seq<u8>)>,
                    _,
                >(error)
                &&& *final(psbt) == *old(psbt)
            },
            Some(Ok(_)) => {
                &&& aggregation::can_aggregate(*old(psbt))
                &&& aggregation::aggregation(*old(psbt), verdicts@) matches Ok(pairs)
                &&& final(psbt).inputs == old(psbt).inputs
                &&& final(psbt).outputs == old(psbt).outputs
                &&& final(psbt).global == (Global {
                    sp_ecdh_shares: final(psbt).global.sp_ecdh_shares,
                    ..old(psbt).global
                })
                &&& aggregation::recorded(
                    old(psbt).global.sp_ecdh_shares@,
                    final(psbt).global.sp_ecdh_shares@,
                    pairs,
                )
            },
        },
        res matches Some(outcome) ==> aggregated(*old(psbt), *final(psbt), verdicts@, outcome),
{
    if psbt.inputs.len() == 0 && find_scan_keys(&psbt.outputs).is_ok() {
        return None;
    }
    Some(psbt.aggregate_ecdh_shares(verdicts))
}

/// After the shares were added up, the outputs are derived with the sums.
pub proof fn law_sums_are_used(
    before: Psbt,
    after: Psbt,
    verdicts: Seq<DleqVerdict>,
    pairs: Seq<(Seq<u8>, Seq<u8>)>,
    j: int,
)
    requires
        aggregation::aggregation(before, verdicts) == Ok::<_, Error>(pairs),
        aggregation::recorded(
            before.global.sp_ecdh_shares@,
            after.global.sp_ecdh_shares@,
            pairs,
        ),
        0 <= j < pairs.len(),
    ensures
        payments::output_secret(after, pairs[j].0) == Ok::<_, Error>(pairs[j].1),
{
    assert(after.global.sp_ecdh_shares@.contains_key(pairs[j].0));
}

/// Adding the shares up first makes no difference: where there is no global share yet, the outputs
/// are derived with the same secret.
pub proof fn law_sums_need_not_be_recorded(
    psbt: Psbt,
    verdicts: Seq<DleqVerdict>,
    pairs: Seq<(Seq<u8>, Seq<u8>)>,
    j: int,
)
    requires
        aggregation::aggregation(psbt, verdicts) == Ok::<_, Error>(pairs),
        0 <= j < pairs.len(),
        !psbt.global.sp_ecdh_shares@.contains_key(pairs[j].0),
    ensures
        payments::output_secret(psbt, pairs[j].0) == Ok::<_, Error>(pairs[j].1),
{
    let keys = share_check::scan_keys(psbt.outputs@)->Ok_0;
    aggregation::law_aggregation(psbt, verdicts);
    aggregation::lemma_secret(psbt, verdicts, j);
    aggregation::lemma_all_share(psbt.inputs@, keys, verdicts, j);
}

/// Setting the scripts does not change the keys that are derived for the outputs.
pub proof fn law_scripts_do_not_change_keys(
    before: Psbt,
    after: Psbt,
    lists: Map<Seq<u8>, Seq<Seq<u8>>>,
)
    requires
        output_scripts::scripts_set(before, after, lists),
    ensures
        payments::derived_keys(after) == payments::derived_keys(before),
{
    let items_before = payments::output_payments(before);
    let items_after = payments::output_payments(after);
    assert forall|i: int| 0 <= i < items_before.len() implies #[trigger] items_after[i]
        == items_before[i] by {
        assert(after.outputs@[i].sp_v0_info == before.outputs@[i].sp_v0_info);
    }
    assert(items_after =~= items_before);
}

/// After the shares were added up, the share that is recorded for the scan key of a silent payment
/// output is what the shares of the inputs that take part are combined to, times the hash over the
/// inputs, for which the keys of these inputs are combined. Each of these inputs has a share and a
/// proof for the scan key. Apart from the recorded shares, nothing changes.
///
/// The result is the sum of the shares and the sum of the keys.
pub proof fn law_recorded_share(
    before: Psbt,
    after: Psbt,
    verdicts: Seq<DleqVerdict>,
    i: int,
) -> (res: (Seq<u8>, Seq<u8>))
    requires
        aggregated(before, after, verdicts, Ok(())),
        0 <= i < before.outputs@.len(),
        before.outputs@[i].sp_v0_info is Some,
    ensures
        ({
            let (sum, key_sum) = res;
            let scan_key = before.outputs@[i].sp_v0_info->Some_0@.subrange(0, 33);
            let takers = before.inputs@.filter(
                |input: Input| utils::eligibility(input) == Ok::<_, Error>(true),
            );
            &&& takers.len() > 0
            &&& secp::combined_points(
                takers.map_values(|input: Input| input.sp_ecdh_shares@[scan_key]@),
            ) == Some(sum)
            &&& secp::combined_points(
                takers.map_values(|input: Input| input_key::input_point(input)->Some_0),
            ) == Some(key_sum)
            &&& after.global.sp_ecdh_shares@.contains_key(scan_key)
            &&& secp::point_times(
                sum,
                hash::input_digest(psbt::outpoints(before.inputs@), key_sum),
            ) == Some(after.global.sp_ecdh_shares@[scan_key]@)
            &&& forall|j: int|
                0 <= j < before.inputs@.len() && utils::eligibility(
                    #[trigger] before.inputs@[j],
                ) == Ok::<_, Error>(true) ==> before.inputs@[j].sp_ecdh_shares@.contains_key(
                    scan_key,
                ) && before.inputs@[j].sp_dleq_proofs@.contains_key(scan_key)
        }),
        after.inputs == before.inputs,
        after.outputs == before.outputs,
        after.global == (Global {
            sp_ecdh_shares: after.global.sp_ecdh_shares,
            ..before.global
        }),
{
    let items = share_check::output_scan_keys(before.outputs@);
    let pairs = aggregation::aggregation(before, verdicts)->Ok_0;
    let scan_key = before.outputs@[i].sp_v0_info->Some_0@.subrange(0, 33);
    collected::lemma_values(items);
    assert(items[i] == share_check::output_scan_key(before.outputs@[i], i));
    assert(items[i] is Ok);
    assert(items[i]->Ok_0 is Some);
    let j = collected::rank(items, i) as int;
    aggregation::law_aggregation(before, verdicts);
    assert(pairs[j].0 == scan_key);
    assert forall|k: int|
        0 <= k < before.inputs@.len() && utils::eligibility(#[trigger] before.inputs@[k]) == Ok::<
            _,
            Error,
        >(true) implies before.inputs@[k].sp_ecdh_shares@.contains_key(scan_key)
        && before.inputs@[k].sp_dleq_proofs@.contains_key(scan_key) by {
        let _ = aggregation::law_aggregated_shares_are_proved(before, verdicts, k, j);
    }
    aggregation::law_aggregated_secret(before, verdicts, j)
}

/// Shares that were recorded for scan keys to which no silent payment output pays stay as they
/// were, and where the shares are not added up, so does all of the transaction.
pub proof fn law_other_shares_stay(
    before: Psbt,
    after: Psbt,
    verdicts: Seq<DleqVerdict>,
    res: Result<(), Error>,
    scan_key: Seq<u8>,
)
    requires
        aggregated(before, after, verdicts, res),
        forall|i: int|
            0 <= i < before.outputs@.len() ==> ((
            #[trigger] before.outputs@[i]).sp_v0_info matches Some(info) ==> info@.subrange(0, 33)
                != scan_key),
    ensures
        after.global.sp_ecdh_shares@.contains_key(scan_key)
            == before.global.sp_ecdh_shares@.contains_key(scan_key),
        before.global.sp_ecdh_shares@.contains_key(scan_key)
            ==> after.global.sp_ecdh_shares@[scan_key] == before.global.sp_ecdh_shares@[scan_key],
        res is Err ==> after == before,
{
    if let Ok(pairs) = aggregation::aggregation(before, verdicts) {
        aggregation::law_aggregation(before, verdicts);
        share_check::law_scan_keys(before.outputs@);
        let keys = share_check::scan_keys(before.outputs@)->Ok_0;
        assert forall|j: int| 0 <= j < pairs.len() implies (#[trigger] pairs[j]).0 != scan_key by {
            let pays = |output: Output| output.sp_v0_info is Some;
            let paying = before.outputs@.filter(pays);
            assert(keys[j] == paying[j].sp_v0_info->Some_0@.subrange(0, 33));
            assert(paying.contains(paying[j]));
            before.outputs@.lemma_filter_contains_rev(pays, paying[j]);
            let i = choose|i: int|
                0 <= i < before.outputs@.len() && before.outputs@[i] == paying[j];
            assert(before.outputs@[i].sp_v0_info is Some);
        }
    }
}

} // verus!
