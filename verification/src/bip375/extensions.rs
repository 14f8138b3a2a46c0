//! Access to the silent payment fields of a transaction.

use vstd::prelude::*;
use crate::bip375::types;
use crate::bytes;
use crate::key_map;
use crate::secp;
use crate::bip375::error::Error;
use crate::bip375::types::EcdhShareData;
use crate::bytes::copy_bytes;
use crate::key_map::KeyMap;
use crate::psbt::{DleqProof, Global, Input, Output, PartialSig, Psbt};
use crate::secp::PublicKey;

verus! {

/// The type of the field with an output's DNSSEC proof.
pub const PSBT_OUT_DNSSEC_PROOF: u64 = 0x35;

/// The type of the field with the derivation of the spend key of a silent payment input.
pub const PSBT_IN_SP_SPEND_BIP32_DERIVATION: u64 = 0x1f;

/// The type of the field with the tweak of a silent payment input.
pub const PSBT_IN_SP_TWEAK: u64 = 0x20;

/// The value of a key in the first map that holds it.
pub open spec fn first_of<V>(
    first: Map<Seq<u8>, V>,
    second: Map<Seq<u8>, V>,
    key: Seq<u8>,
) -> Option<V> {
    if first.contains_key(key) {
        Some(first[key])
    } else if second.contains_key(key) {
        Some(second[key])
    } else {
        None
    }
}

/// The scan keys of a list of shares.
pub open spec fn listed_keys(list: Seq<EcdhShareData>) -> Seq<Seq<u8>> {
    list.map_values(|data: EcdhShareData| data.scan_key@)
}

/// The list holds the shares, one for each scan key, in the order of the scan keys. Each has the
/// proof in `first` for its scan key, or else the one in `second`.
pub open spec fn lists_shares(
    list: Seq<EcdhShareData>,
    shares: Map<Seq<u8>, PublicKey>,
    first: Map<Seq<u8>, DleqProof>,
    second: Map<Seq<u8>, DleqProof>,
) -> bool {
    &&& key_map::ascending(listed_keys(list))
    &&& forall|key: Seq<u8>| #[trigger]
        listed_keys(list).contains(key) <==> shares.contains_key(key)
    &&& forall|i: int|
        0 <= i < list.len() ==> (#[trigger] list[i]).share == shares[list[i].scan_key@]
            && list[i].dleq_proof == first_of(first, second, list[i].scan_key@)
}

/// The shares and the proofs determine the list. So an input without shares of its own has the
/// list of the global shares.
pub proof fn law_listing_is_determined(
    list: Seq<EcdhShareData>,
    other: Seq<EcdhShareData>,
    shares: Map<Seq<u8>, PublicKey>,
    first: Map<Seq<u8>, DleqProof>,
    second: Map<Seq<u8>, DleqProof>,
)
    requires
        lists_shares(list, shares, first, second),
        lists_shares(other, shares, first, second),
    ensures
        list == other,
{
    key_map::lemma_ascending_unique(listed_keys(list), listed_keys(other));
    assert(listed_keys(list).len() == listed_keys(other).len());
    assert forall|i: int| 0 <= i < list.len() implies list[i] == other[i] by {
        assert(listed_keys(list)[i] == listed_keys(other)[i]);
        secp::lemma_same_key(list[i].scan_key, other[i].scan_key);
    }
    assert(list =~= other);
}

/// A share that was added is listed, with its proof if it came with one.
pub proof fn law_added_share_is_listed(
    list: Seq<EcdhShareData>,
    data: EcdhShareData,
    shares: Map<Seq<u8>, PublicKey>,
    proofs: Map<Seq<u8>, DleqProof>,
    other: Map<Seq<u8>, DleqProof>,
)
    requires
        lists_shares(
            list,
            with_share(shares, data),
            with_proof(proofs, data),
            other,
        ),
    ensures
        exists|i: int|
            0 <= i < list.len() && (#[trigger] list[i]).scan_key@ == data.scan_key@ && list[i].share
                == data.share && (data.dleq_proof is Some ==> list[i].dleq_proof
                == data.dleq_proof),
{
    let key = data.scan_key@;
    assert(listed_keys(list).contains(key));
    let i = choose|i: int| 0 <= i < listed_keys(list).len() && listed_keys(list)[i] == key;
    assert(list[i].scan_key@ == key);
}

/// Adding a share does not touch the listed shares of other scan keys.
pub proof fn law_added_share_keeps_others(
    before: Seq<EcdhShareData>,
    after: Seq<EcdhShareData>,
    data: EcdhShareData,
    shares: Map<Seq<u8>, PublicKey>,
    proofs: Map<Seq<u8>, DleqProof>,
    other: Map<Seq<u8>, DleqProof>,
    i: int,
)
    requires
        lists_shares(before, shares, proofs, other),
        lists_shares(
            after,
            with_share(shares, data),
            with_proof(proofs, data),
            other,
        ),
        0 <= i < before.len(),
        before[i].scan_key@ != data.scan_key@,
    ensures
        exists|j: int|
            0 <= j < after.len() && (#[trigger] after[j]).scan_key@ == before[i].scan_key@
                && after[j].share == before[i].share && after[j].dleq_proof
                == before[i].dleq_proof,
{
    let key = before[i].scan_key@;
    assert(listed_keys(before)[i] == key);
    assert(listed_keys(before).contains(key));
    assert(listed_keys(after).contains(key));
    let j = choose|j: int| 0 <= j < listed_keys(after).len() && listed_keys(after)[j] == key;
    assert(after[j].scan_key@ == key);
}

/// Shares by scan key, after a share was added.
pub open spec fn with_share(shares: Map<Seq<u8>, PublicKey>, data: EcdhShareData) -> Map<
    Seq<u8>,
    PublicKey,
> {
    shares.insert(data.scan_key@, data.share)
}

/// Proofs by scan key, after a share was added, which may come with a proof.
pub open spec fn with_proof(proofs: Map<Seq<u8>, DleqProof>, data: EcdhShareData) -> Map<
    Seq<u8>,
    DleqProof,
> {
    match data.dleq_proof {
        Some(proof) => proofs.insert(data.scan_key@, proof),
        None => proofs,
    }
}

/// Only the shares and the proofs of a global map differ.
pub open spec fn same_global_but_shares(before: Global, after: Global) -> bool {
    after == (Global {
        sp_ecdh_shares: after.sp_ecdh_shares,
        sp_dleq_proofs: after.sp_dleq_proofs,
        ..before
    })
}

/// Only the shares and the proofs of an input differ.
pub open spec fn same_input_but_shares(before: Input, after: Input) -> bool {
    after == (Input {
        sp_ecdh_shares: after.sp_ecdh_shares,
        sp_dleq_proofs: after.sp_dleq_proofs,
        ..before
    })
}

/// Only the input at a position differs, and is `input` there.
pub open spec fn input_replaced(before: Psbt, after: Psbt, i: int, input: Input) -> bool {
    &&& after == (Psbt { inputs: after.inputs, ..before })
    &&& after.inputs@ == before.inputs@.update(i, input)
}

/// The tweak of an input.
pub open spec fn tweak_of(psbt: Psbt, i: int) -> Option<[u8; 32]> {
    if 0 <= i < psbt.inputs@.len() {
        psbt.inputs@[i].sp_tweak
    } else {
        None
    }
}

/// Only the tweak of an input differs, and is `tweak`.
pub open spec fn tweak_replaced(
    before: Psbt,
    after: Psbt,
    i: int,
    tweak: Option<[u8; 32]>,
) -> bool {
    input_replaced(before, after, i, (Input { sp_tweak: tweak, ..before.inputs@[i] }))
}

/// A tweak that was set is read back, those of the other inputs are as before, and removing it
/// leaves the inputs as they were without it.
pub proof fn law_tweak(before: Psbt, set: Psbt, removed: Psbt, i: int, tweak: [u8; 32])
    requires
        0 <= i < before.inputs@.len(),
        tweak_replaced(before, set, i, Some(tweak)),
        tweak_replaced(set, removed, i, None),
    ensures
        tweak_of(set, i) == Some(tweak),
        tweak_of(removed, i) is None,
        forall|j: int| j != i ==> #[trigger] tweak_of(set, j) == tweak_of(before, j),
        before.inputs@[i].sp_tweak is None ==> removed.inputs@ == before.inputs@,
{
    if before.inputs@[i].sp_tweak is None {
        assert(removed.inputs@ =~= before.inputs@);
    }
}

/// Access to the silent payment fields.
pub trait Bip375PsbtExt {
    /// The global shares.
    fn get_global_ecdh_shares(&self) -> Vec<EcdhShareData>;

    /// Adds a global share.
    fn add_global_ecdh_share(&mut self, share: &EcdhShareData) -> Result<(), Error>;

    /// The shares of an input, or the global ones where it has none.
    fn get_input_ecdh_shares(&self, input_index: usize) -> Vec<EcdhShareData>;

    /// Adds a share to an input.
    fn add_input_ecdh_share(&mut self, input_index: usize, share: &EcdhShareData) -> Result<
        (),
        Error,
    >;

    /// The tweak that is added to the spend key to spend an input.
    fn get_input_sp_tweak(&self, input_index: usize) -> Option<[u8; 32]>;

    /// Sets the tweak of an input.
    fn set_input_sp_tweak(&mut self, input_index: usize, tweak: [u8; 32]) -> Result<(), Error>;

    /// Removes the tweak of an input.
    fn remove_input_sp_tweak(&mut self, input_index: usize) -> Result<(), Error>;

    /// Removes the derivations of the spend key of an input.
    fn remove_input_sp_spend_bip32_derivation(&mut self, input_index: usize) -> Result<(), Error>;

    /// The number of inputs.
    fn num_inputs(&self) -> usize;

    /// The number of outputs.
    fn num_outputs(&self) -> usize;

    /// The public keys and the signatures of an input's partial signatures.
    fn get_input_partial_sigs(&self, input_index: usize) -> Vec<(Vec<u8>, Vec<u8>)>;
}

/// Lists shares with their proofs.
fn list_shares(
    shares: &KeyMap<PublicKey>,
    first: &KeyMap<DleqProof>,
    second: &KeyMap<DleqProof>,
) -> (res: Vec<EcdhShareData>)
    ensures
        lists_shares(res@, shares@, first@, second@),
{
    let len = shares.len();
    let mut res: Vec<EcdhShareData> = Vec::new();
    let mut i: usize = 0;
    while i < len
        invariant
            i <= len,
            len == shares.keys().len(),
            res@.len() == i,
            forall|j: int|
                0 <= j < i ==> (#[trigger] res@[j]).scan_key@ == shares.keys()[j] && res@[j].share
                    == shares@[res@[j].scan_key@] && res@[j].dleq_proof == first_of(
                    first@,
                    second@,
                    res@[j].scan_key@,
                ),
        decreases len - i,
    {
        let (scan_key, share) = shares.at(i);
        let dleq_proof = match first.get(scan_key) {
            Some(proof) => Some(*proof),
            None => match second.get(scan_key) {
                Some(proof) => Some(*proof),
                None => None,
            },
        };
        res.push(EcdhShareData::new(*scan_key, *share, dleq_proof));
        i += 1;
    }
    assert(listed_keys(res@) =~= shares.keys());
    res
}

/// The global proof for a scan key.
pub fn get_global_dleq_proof(psbt: &Psbt, scan_key: &PublicKey) -> (res: Option<DleqProof>)
    ensures
        match res {
            Some(proof) => psbt.global.sp_dleq_proofs@.contains_key(scan_key@) && proof
                == psbt.global.sp_dleq_proofs@[scan_key@],
            None => !psbt.global.sp_dleq_proofs@.contains_key(scan_key@),
        },
{
    match psbt.global.sp_dleq_proofs.get(scan_key) {
        Some(proof) => Some(*proof),
        None => None,
    }
}

/// Sets the global proof for a scan key.
pub fn add_global_dleq_proof(psbt: &mut Psbt, scan_key: &PublicKey, proof: DleqProof) -> (res:
    Result<(), Error>)
    ensures
        res is Ok,
        final(psbt).global.sp_dleq_proofs@ == old(psbt).global.sp_dleq_proofs@.insert(
            scan_key@,
            proof,
        ),
        *final(psbt) == (Psbt {
            global: Global {
                sp_dleq_proofs: final(psbt).global.sp_dleq_proofs,
                ..old(psbt).global
            },
            ..*old(psbt)
        }),
{
    psbt.global.sp_dleq_proofs.insert(*scan_key, proof);
    Ok(())
}

/// The proof of an input for a scan key.
pub fn get_input_dleq_proof(psbt: &Psbt, input_index: usize, scan_key: &PublicKey) -> (res: Option<
    DleqProof,
>)
    ensures
        match res {
            Some(proof) => input_index < psbt.inputs@.len()
                && psbt.inputs@[input_index as int].sp_dleq_proofs@.contains_key(scan_key@) && proof
                == psbt.inputs@[input_index as int].sp_dleq_proofs@[scan_key@],
            None => input_index >= psbt.inputs@.len()
                || !psbt.inputs@[input_index as int].sp_dleq_proofs@.contains_key(scan_key@),
        },
{
    if input_index >= psbt.inputs.len() {
        return None;
    }
    match psbt.inputs[input_index].sp_dleq_proofs.get(scan_key) {
        Some(proof) => Some(*proof),
        None => None,
    }
}

/// Sets the proof of an input for a scan key.
pub fn add_input_dleq_proof(
    psbt: &mut Psbt,
    input_index: usize,
    scan_key: &PublicKey,
    proof: DleqProof,
) -> (res: Result<(), Error>)
    ensures
        input_index >= old(psbt).inputs@.len() ==> res == Err::<(), _>(
            Error::InvalidInputIndex(input_index),
        ) && *final(psbt) == *old(psbt),
        input_index < old(psbt).inputs@.len() ==> {
            let before = old(psbt).inputs@[input_index as int];
            let after = final(psbt).inputs@[input_index as int];
            &&& res is Ok
            &&& input_replaced(*old(psbt), *final(psbt), input_index as int, after)
            &&& after == (Input { sp_dleq_proofs: after.sp_dleq_proofs, ..before })
            &&& after.sp_dleq_proofs@ == before.sp_dleq_proofs@.insert(scan_key@, proof)
        },
{
    if input_index >= psbt.inputs.len() {
        return Err(Error::InvalidInputIndex(input_index));
    }
    psbt.inputs[input_index].sp_dleq_proofs.insert(*scan_key, proof);
    Ok(())
}

/// The scan key and the spend key of an output that is a silent payment, where both are points.
pub open spec fn sp_info(output: Output) -> Option<Seq<u8>> {
    match output.sp_v0_info {
        Some(info) => if info@.len() == 66 && secp::valid_point(types::first_key(info@))
            && secp::valid_point(types::second_key(info@)) {
            Some(info@)
        } else {
            None
        },
        None => None,
    }
}

/// The scan key and the spend key of an output; `None` for an output that is no silent payment, or
/// whose keys cannot be read.
pub fn get_output_sp_info(psbt: &Psbt, output_index: usize) -> (res: Option<(PublicKey, PublicKey)>)
    ensures
        match res {
            Some((scan_key, spend_key)) => output_index < psbt.outputs@.len() && sp_info(
                psbt.outputs@[output_index as int],
            ) == Some(types::key_pair(scan_key@, spend_key@)),
            None => output_index >= psbt.outputs@.len() || sp_info(
                psbt.outputs@[output_index as int],
            ) is None,
        },
{
    if output_index >= psbt.outputs.len() {
        return None;
    }
    let Some(info) = &psbt.outputs[output_index].sp_v0_info else {
        return None;
    };
    if info.len() != 66 {
        return None;
    }
    let Some(scan_key) = PublicKey::read_at(info.as_slice(), 0) else {
        return None;
    };
    let Some(spend_key) = PublicKey::read_at(info.as_slice(), 33) else {
        return None;
    };
    assert(types::key_pair(scan_key@, spend_key@) =~= info@);
    Some((scan_key, spend_key))
}

/// The partial signatures, as pairs of a compressed public key and a signature.
pub open spec fn signature_pairs(pairs: Seq<(Vec<u8>, Vec<u8>)>, sigs: Seq<PartialSig>) -> bool {
    &&& pairs.len() == sigs.len()
    &&& forall|i: int|
        0 <= i < pairs.len() ==> (#[trigger] pairs[i]).0@ == sigs[i].public_key.inner@
            && pairs[i].1@ == sigs[i].signature@
}

impl Bip375PsbtExt for Psbt {
    fn get_global_ecdh_shares(&self) -> (res: Vec<EcdhShareData>)
        ensures
            lists_shares(
                res@,
                self.global.sp_ecdh_shares@,
                self.global.sp_dleq_proofs@,
                self.global.sp_dleq_proofs@,
            ),
    {
        list_shares(
            &self.global.sp_ecdh_shares,
            &self.global.sp_dleq_proofs,
            &self.global.sp_dleq_proofs,
        )
    }

    fn add_global_ecdh_share(&mut self, share: &EcdhShareData) -> (res: Result<(), Error>)
        ensures
            res is Ok,
            final(self).inputs == old(self).inputs,
            final(self).outputs == old(self).outputs,
            same_global_but_shares(old(self).global, final(self).global),
            final(self).global.sp_ecdh_shares@ == with_share(
                old(self).global.sp_ecdh_shares@,
                *share,
            ),
            final(self).global.sp_dleq_proofs@ == with_proof(
                old(self).global.sp_dleq_proofs@,
                *share,
            ),
    {
        self.global.sp_ecdh_shares.insert(share.scan_key, share.share);
        if let Some(proof) = share.dleq_proof {
            return add_global_dleq_proof(self, &share.scan_key, proof);
        }
        Ok(())
    }

    fn get_input_ecdh_shares(&self, input_index: usize) -> (res: Vec<EcdhShareData>)
        ensures
            input_index >= self.inputs@.len() ==> res@.len() == 0,
            input_index < self.inputs@.len() ==> {
                let input = self.inputs@[input_index as int];
                if input.sp_ecdh_shares@ == Map::<Seq<u8>, PublicKey>::empty() {
                    lists_shares(
                        res@,
                        self.global.sp_ecdh_shares@,
                        self.global.sp_dleq_proofs@,
                        self.global.sp_dleq_proofs@,
                    )
                } else {
                    lists_shares(
                        res@,
                        input.sp_ecdh_shares@,
                        input.sp_dleq_proofs@,
                        self.global.sp_dleq_proofs@,
                    )
                }
            },
    {
        if input_index >= self.inputs.len() {
            return Vec::new();
        }
        let input = &self.inputs[input_index];
        if input.sp_ecdh_shares.is_empty() {
            self.get_global_ecdh_shares()
        } else {
            list_shares(&input.sp_ecdh_shares, &input.sp_dleq_proofs, &self.global.sp_dleq_proofs)
        }
    }

    fn add_input_ecdh_share(&mut self, input_index: usize, share: &EcdhShareData) -> (res: Result<
        (),
        Error,
    >)
        ensures
            input_index >= old(self).inputs@.len() ==> res == Err::<(), _>(
                Error::InvalidInputIndex(input_index),
            ) && *final(self) == *old(self),
            input_index < old(self).inputs@.len() ==> {
                let before = old(self).inputs@[input_index as int];
                let after = final(self).inputs@[input_index as int];
                &&& res is Ok
                &&& input_replaced(*old(self), *final(self), input_index as int, after)
                &&& same_input_but_shares(before, after)
                &&& after.sp_ecdh_shares@ == with_share(before.sp_ecdh_shares@, *share)
                &&& after.sp_dleq_proofs@ == with_proof(before.sp_dleq_proofs@, *share)
            },
    {
        if input_index >= self.inputs.len() {
            return Err(Error::InvalidInputIndex(input_index));
        }
        self.inputs[input_index].sp_ecdh_shares.insert(share.scan_key, share.share);
        if let Some(proof) = share.dleq_proof {
            let res = add_input_dleq_proof(self, input_index, &share.scan_key, proof);
            assert(self.inputs@ =~= old(self).inputs@.update(
                input_index as int,
                self.inputs@[input_index as int],
            ));
            return res;
        }
        Ok(())
    }

    fn get_input_sp_tweak(&self, input_index: usize) -> (res: Option<[u8; 32]>)
        ensures
            res == tweak_of(*self, input_index as int),
    {
        if input_index >= self.inputs.len() {
            return None;
        }
        self.inputs[input_index].sp_tweak
    }

    fn set_input_sp_tweak(&mut self, input_index: usize, tweak: [u8; 32]) -> (res: Result<
        (),
        Error,
    >)
        ensures
            input_index >= old(self).inputs@.len() ==> res == Err::<(), _>(
                Error::InvalidInputIndex(input_index),
            ) && *final(self) == *old(self),
            input_index < old(self).inputs@.len() ==> res is Ok && tweak_replaced(
                *old(self),
                *final(self),
                input_index as int,
                Some(tweak),
            ),
    {
        if input_index >= self.inputs.len() {
            return Err(Error::InvalidInputIndex(input_index));
        }
        self.inputs[input_index].sp_tweak = Some(tweak);
        Ok(())
    }

    fn remove_input_sp_tweak(&mut self, input_index: usize) -> (res: Result<(), Error>)
        ensures
            input_index >= old(self).inputs@.len() ==> res == Err::<(), _>(
                Error::InvalidInputIndex(input_index),
            ) && *final(self) == *old(self),
            input_index < old(self).inputs@.len() ==> res is Ok && tweak_replaced(
                *old(self),
                *final(self),
                input_index as int,
                None,
            ),
    {
        if input_index >= self.inputs.len() {
            return Err(Error::InvalidInputIndex(input_index));
        }
        self.inputs[input_index].sp_tweak = None;
        Ok(())
    }

    fn remove_input_sp_spend_bip32_derivation(&mut self, input_index: usize) -> (res: Result<
        (),
        Error,
    >)
        ensures
            input_index >= old(self).inputs@.len() ==> res == Err::<(), _>(
                Error::InvalidInputIndex(input_index),
            ) && *final(self) == *old(self),
            input_index < old(self).inputs@.len() ==> {
                let before = old(self).inputs@[input_index as int];
                let after = final(self).inputs@[input_index as int];
                &&& res is Ok
                &&& input_replaced(*old(self), *final(self), input_index as int, after)
                &&& after == (Input {
                    sp_spend_bip32_derivations: after.sp_spend_bip32_derivations,
                    ..before
                })
                &&& after.sp_spend_bip32_derivations@.len() == 0
            },
    {
        if input_index >= self.inputs.len() {
            return Err(Error::InvalidInputIndex(input_index));
        }
        self.inputs[input_index].sp_spend_bip32_derivations.clear();
        Ok(())
    }

    fn num_inputs(&self) -> (res: usize)
        ensures
            res == self.inputs@.len(),
    {
        self.inputs.len()
    }

    fn num_outputs(&self) -> (res: usize)
        ensures
            res == self.outputs@.len(),
    {
        self.outputs.len()
    }

    fn get_input_partial_sigs(&self, input_index: usize) -> (res: Vec<(Vec<u8>, Vec<u8>)>)
        ensures
            input_index >= self.inputs@.len() ==> res@.len() == 0,
            input_index < self.inputs@.len() ==> signature_pairs(
                res@,
                self.inputs@[input_index as int].partial_sigs@,
            ),
    {
        let mut res: Vec<(Vec<u8>, Vec<u8>)> = Vec::new();
        if input_index >= self.inputs.len() {
            return res;
        }
        let sigs = &self.inputs[input_index].partial_sigs;
        let mut i: usize = 0;
        while i < sigs.len()
            invariant
                i <= sigs@.len(),
                signature_pairs(res@, sigs@.take(i as int)),
            decreases sigs@.len() - i,
        {
            let sig = &sigs[i];
            res.push(
                (
                    copy_bytes(&sig.public_key.inner.serialize()),
                    copy_bytes(sig.signature.as_slice()),
                ),
            );
            i += 1;
        }
        assert(sigs@.take(i as int) =~= sigs@);
        res
    }
}

/// A silent payment output shows its two keys where its address has 66 bytes and both halves are
/// points.
pub proof fn law_sp_info(output: Output)
    ensures
        sp_info(output) is Some <==> (output.sp_v0_info matches Some(info) && info@.len() == 66
            && secp::valid_point(info@.take(33)) && secp::valid_point(info@.skip(33))),
        sp_info(output) matches Some(keys) ==> (output.sp_v0_info matches Some(info) && keys
            == info@),
{
    if let Some(info) = output.sp_v0_info {
        if info@.len() == 66 {
            assert(info@.take(33) =~= info@.subrange(0, 33));
            assert(info@.skip(33) =~= info@.subrange(33, 66));
        }
    }
}

/// A list of shares has an entry for each share, in ascending order of the scan keys, with the share
/// and with the proof that is there for the scan key, where the first proofs go before the second.
pub proof fn law_listed_shares(
    list: Seq<EcdhShareData>,
    shares: Map<Seq<u8>, PublicKey>,
    first: Map<Seq<u8>, DleqProof>,
    second: Map<Seq<u8>, DleqProof>,
    i: int,
    key: Seq<u8>,
)
    requires
        lists_shares(list, shares, first, second),
        0 <= i < list.len(),
    ensures
        ({
            let own = list[i].scan_key@;
            &&& shares.contains_key(own)
            &&& list[i].share == shares[own]
            &&& first.contains_key(own) ==> list[i].dleq_proof == Some(first[own])
            &&& !first.contains_key(own) && second.contains_key(own) ==> list[i].dleq_proof
                == Some(second[own])
            &&& !first.contains_key(own) && !second.contains_key(own)
                ==> list[i].dleq_proof is None
            &&& i + 1 < list.len() ==> bytes::lex_less(own, list[i + 1].scan_key@)
        }),
        shares.contains_key(key) ==> exists|n: int|
            0 <= n < list.len() && (#[trigger] list[n]).scan_key@ == key,
{
    assert(listed_keys(list)[i] == list[i].scan_key@);
    assert(listed_keys(list).contains(list[i].scan_key@));
    if i + 1 < list.len() {
        assert(listed_keys(list)[i + 1] == list[i + 1].scan_key@);
    }
    if shares.contains_key(key) {
        assert(listed_keys(list).contains(key));
        let n = choose|n: int| 0 <= n < listed_keys(list).len() && listed_keys(list)[n] == key;
        assert(list[n].scan_key@ == key);
    }
}

/// Adding a share puts it under its scan key, with its proof where it has one, and leaves the other
/// shares and proofs as they were.
pub proof fn law_added_share(
    shares: Map<Seq<u8>, PublicKey>,
    proofs: Map<Seq<u8>, DleqProof>,
    data: EcdhShareData,
    key: Seq<u8>,
)
    ensures
        with_share(shares, data).contains_key(data.scan_key@),
        with_share(shares, data)[data.scan_key@] == data.share,
        data.dleq_proof matches Some(proof) ==> with_proof(proofs, data).contains_key(
            data.scan_key@,
        ) && with_proof(proofs, data)[data.scan_key@] == proof,
        data.dleq_proof is None ==> with_proof(proofs, data) == proofs,
        key != data.scan_key@ ==> {
            &&& with_share(shares, data).contains_key(key) == shares.contains_key(key)
            &&& shares.contains_key(key) ==> with_share(shares, data)[key] == shares[key]
            &&& with_proof(proofs, data).contains_key(key) == proofs.contains_key(key)
            &&& proofs.contains_key(key) ==> with_proof(proofs, data)[key] == proofs[key]
        },
{
}

/// Replacing an input leaves the global map, the outputs and the other inputs as they were.
pub proof fn law_input_replaced(before: Psbt, after: Psbt, i: int, input: Input, j: int)
    requires
        input_replaced(before, after, i, input),
        0 <= i < before.inputs@.len(),
        0 <= j < before.inputs@.len(),
    ensures
        after.global == before.global,
        after.outputs == before.outputs,
        after.inputs@.len() == before.inputs@.len(),
        after.inputs@[i] == input,
        j != i ==> after.inputs@[j] == before.inputs@[j],
{
}

/// The signatures of an input are listed in their order, each behind its compressed public key.
pub proof fn law_signature_pairs(pairs: Seq<(Vec<u8>, Vec<u8>)>, sigs: Seq<PartialSig>, i: int)
    requires
        signature_pairs(pairs, sigs),
        0 <= i < sigs.len(),
    ensures
        pairs.len() == sigs.len(),
        pairs[i].0@ == sigs[i].public_key.inner@,
        pairs[i].1@ == sigs[i].signature@,
{
    assert(pairs[i].0@ == sigs[i].public_key.inner@);
}

/// Where only the shares and the proofs differ, all other fields of a global map are as before.
pub proof fn law_same_global_but_shares(before: Global, after: Global)
    requires
        same_global_but_shares(before, after),
    ensures
        after.version == before.version,
        after.tx_version == before.tx_version,
        after.fallback_lock_time == before.fallback_lock_time,
        after.tx_modifiable_flags == before.tx_modifiable_flags,
        after.input_count == before.input_count,
        after.output_count == before.output_count,
        after.xpubs == before.xpubs,
        after.proprietaries == before.proprietaries,
        after.unknowns == before.unknowns,
{
}

/// Where only the shares and the proofs differ, an input is otherwise as before.
pub proof fn law_same_input_but_shares(before: Input, after: Input)
    requires
        same_input_but_shares(before, after),
    ensures
        (Input {
            sp_ecdh_shares: before.sp_ecdh_shares,
            sp_dleq_proofs: before.sp_dleq_proofs,
            ..after
        }) == before,
{
}

} // verus!
