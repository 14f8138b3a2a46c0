//! The parts of a version 2 partially signed bitcoin transaction.
//!
//! What the roles of this library read is held in types of its own. What they only carry along is
//! held as the raw key and value of its field.

use vstd::prelude::*;
use crate::hash::OutPoint;
use crate::key_map::KeyMap;
use crate::secp::PublicKey;

verus! {

/// The key data and the value of a field.
#[derive(Clone, Debug, PartialEq, Eq)]
pub struct RawEntry {
    pub key: Vec<u8>,
    pub value: Vec<u8>,
}

/// A field that is not known: its type, its key data and its value.
#[derive(Clone, Debug, PartialEq, Eq)]
pub struct RawPair {
    pub type_value: u64,
    pub key: Vec<u8>,
    pub value: Vec<u8>,
}

/// A proof that two pairs of points have the same discrete logarithm.
#[derive(Clone, Copy, Debug, PartialEq, Eq)]
pub struct DleqProof(pub [u8; 64]);

/// A transaction output.
#[derive(Clone, Debug, PartialEq, Eq)]
pub struct TxOut {
    /// The value in satoshis.
    pub value: u64,
    pub script_pubkey: Vec<u8>,
}

/// A transaction that an input spends from.
#[derive(Clone, Debug, PartialEq, Eq)]
pub struct Transaction {
    /// The serialized transaction.
    pub raw: Vec<u8>,
    pub outputs: Vec<TxOut>,
}

/// A public key as a script may hold it, compressed or not.
#[derive(Clone, Copy, Debug, PartialEq, Eq)]
pub struct ScriptKey {
    pub compressed: bool,
    pub inner: PublicKey,
}

/// An ECDSA signature, as it is pushed to the stack, by a public key.
#[derive(Clone, Debug, PartialEq, Eq)]
pub struct PartialSig {
    pub public_key: ScriptKey,
    pub signature: Vec<u8>,
}

/// A public key that an input is signed with, and its serialized key source.
#[derive(Clone, Debug, PartialEq, Eq)]
pub struct KeyOrigin {
    pub public_key: ScriptKey,
    pub source: Vec<u8>,
}

/// The global map.
#[derive(Clone, Debug, PartialEq, Eq)]
pub struct Global {
    pub version: u32,
    pub tx_version: u32,
    pub fallback_lock_time: Option<u32>,
    pub tx_modifiable_flags: u8,
    pub input_count: usize,
    pub output_count: usize,
    pub xpubs: Vec<RawEntry>,
    /// The ECDH shares that cover all inputs, by scan key.
    pub sp_ecdh_shares: KeyMap<PublicKey>,
    /// The proofs of those shares, by scan key.
    pub sp_dleq_proofs: KeyMap<DleqProof>,
    pub proprietaries: Vec<RawEntry>,
    pub unknowns: Vec<RawPair>,
}

/// The map of an input.
#[derive(Clone, Debug, PartialEq, Eq)]
pub struct Input {
    /// The hash of the transaction whose output is spent.
    pub previous_txid: [u8; 32],
    /// The position of the output that is spent.
    pub spent_output_index: u32,
    pub sequence: Option<u32>,
    pub min_time: Option<u32>,
    pub min_height: Option<u32>,
    pub non_witness_utxo: Option<Transaction>,
    pub witness_utxo: Option<TxOut>,
    pub partial_sigs: Vec<PartialSig>,
    pub sighash_type: Option<u32>,
    pub redeem_script: Option<Vec<u8>>,
    pub witness_script: Option<Vec<u8>>,
    pub bip32_derivations: Vec<KeyOrigin>,
    pub final_script_sig: Option<Vec<u8>>,
    /// The items of the finished witness.
    pub final_script_witness: Option<Vec<Vec<u8>>>,
    pub ripemd160_preimages: Vec<RawEntry>,
    pub sha256_preimages: Vec<RawEntry>,
    pub hash160_preimages: Vec<RawEntry>,
    pub hash256_preimages: Vec<RawEntry>,
    /// The Schnorr signature of a key spend, as it is pushed to the stack.
    pub tap_key_sig: Option<Vec<u8>>,
    pub tap_script_sigs: Vec<RawEntry>,
    pub tap_scripts: Vec<RawEntry>,
    pub tap_key_origins: Vec<RawEntry>,
    pub tap_internal_key: Option<[u8; 32]>,
    pub tap_merkle_root: Option<[u8; 32]>,
    pub musig2_participant_pubkeys: Vec<RawEntry>,
    pub musig2_pub_nonces: Vec<RawEntry>,
    pub musig2_partial_sigs: Vec<RawEntry>,
    /// The ECDH shares of this input, by scan key.
    pub sp_ecdh_shares: KeyMap<PublicKey>,
    /// The proofs of those shares, by scan key.
    pub sp_dleq_proofs: KeyMap<DleqProof>,
    pub sp_spend_bip32_derivations: Vec<RawEntry>,
    /// What is added to the spend key to spend a silent payment output.
    pub sp_tweak: Option<[u8; 32]>,
    pub proprietaries: Vec<RawEntry>,
    pub unknowns: Vec<RawPair>,
}

/// The map of an output.
#[derive(Clone, Debug, PartialEq, Eq)]
pub struct Output {
    /// The value in satoshis.
    pub amount: u64,
    pub script_pubkey: Vec<u8>,
    pub redeem_script: Option<Vec<u8>>,
    pub witness_script: Option<Vec<u8>>,
    pub bip32_derivations: Vec<KeyOrigin>,
    pub tap_internal_key: Option<[u8; 32]>,
    pub tap_tree: Option<Vec<u8>>,
    pub tap_key_origins: Vec<RawEntry>,
    /// The scan key and the spend key of a silent payment address, 33 bytes each.
    pub sp_v0_info: Option<Vec<u8>>,
    pub sp_v0_label: Option<u32>,
    pub proprietaries: Vec<RawEntry>,
    pub unknowns: Vec<RawPair>,
}

/// A partially signed transaction.
#[derive(Clone, Debug, PartialEq, Eq)]
pub struct Psbt {
    pub global: Global,
    pub inputs: Vec<Input>,
    pub outputs: Vec<Output>,
}

/// Why an input has no funding output.
#[derive(Clone, Copy, Debug, PartialEq, Eq)]
pub enum FundingUtxoError {
    /// The transaction that is spent from has too few outputs.
    OutOfBounds { vout: u32, len: usize },
    /// The input holds neither an output nor a transaction.
    MissingUtxo,
}

/// The script of the output that an input spends, where the input shows that output.
pub open spec fn funding_script(input: Input) -> Option<Seq<u8>> {
    match (input.witness_utxo, input.non_witness_utxo) {
        (Some(utxo), _) => Some(utxo.script_pubkey@),
        (None, Some(tx)) => if input.spent_output_index < tx.outputs@.len() {
            Some(tx.outputs@[input.spent_output_index as int].script_pubkey@)
        } else {
            None
        },
        (None, None) => None,
    }
}

/// The outpoint that an input spends.
pub open spec fn input_outpoint(input: Input) -> OutPoint {
    OutPoint { txid: input.previous_txid, vout: input.spent_output_index }
}

/// The outpoints that a transaction spends.
pub open spec fn outpoints(inputs: Seq<Input>) -> Seq<OutPoint> {
    inputs.map_values(|input: Input| input_outpoint(input))
}

impl Input {
    /// An input that spends `previous_output`, and holds nothing else.
    pub fn new(previous_output: &OutPoint) -> (res: Input)
        ensures
            input_outpoint(res) == *previous_output,
            res.sequence is None,
            res.min_time is None,
            res.min_height is None,
            res.non_witness_utxo is None,
            res.witness_utxo is None,
            res.partial_sigs@.len() == 0,
            res.sighash_type is None,
            res.redeem_script is None,
            res.witness_script is None,
            res.bip32_derivations@.len() == 0,
            res.final_script_sig is None,
            res.final_script_witness is None,
            res.ripemd160_preimages@.len() == 0,
            res.sha256_preimages@.len() == 0,
            res.hash160_preimages@.len() == 0,
            res.hash256_preimages@.len() == 0,
            res.tap_key_sig is None,
            res.tap_script_sigs@.len() == 0,
            res.tap_scripts@.len() == 0,
            res.tap_key_origins@.len() == 0,
            res.tap_internal_key is None,
            res.tap_merkle_root is None,
            res.musig2_participant_pubkeys@.len() == 0,
            res.musig2_pub_nonces@.len() == 0,
            res.musig2_partial_sigs@.len() == 0,
            res.sp_ecdh_shares@ == Map::<Seq<u8>, PublicKey>::empty(),
            res.sp_dleq_proofs@ == Map::<Seq<u8>, DleqProof>::empty(),
            res.sp_spend_bip32_derivations@.len() == 0,
            res.sp_tweak is None,
            res.proprietaries@.len() == 0,
            res.unknowns@.len() == 0,
    {
        Input {
            previous_txid: previous_output.txid,
            spent_output_index: previous_output.vout,
            sequence: None,
            min_time: None,
            min_height: None,
            non_witness_utxo: None,
            witness_utxo: None,
            partial_sigs: Vec::new(),
            sighash_type: None,
            redeem_script: None,
            witness_script: None,
            bip32_derivations: Vec::new(),
            final_script_sig: None,
            final_script_witness: None,
            ripemd160_preimages: Vec::new(),
            sha256_preimages: Vec::new(),
            hash160_preimages: Vec::new(),
            hash256_preimages: Vec::new(),
            tap_key_sig: None,
            tap_script_sigs: Vec::new(),
            tap_scripts: Vec::new(),
            tap_key_origins: Vec::new(),
            tap_internal_key: None,
            tap_merkle_root: None,
            musig2_participant_pubkeys: Vec::new(),
            musig2_pub_nonces: Vec::new(),
            musig2_partial_sigs: Vec::new(),
            sp_ecdh_shares: KeyMap::new(),
            sp_dleq_proofs: KeyMap::new(),
            sp_spend_bip32_derivations: Vec::new(),
            sp_tweak: None,
            proprietaries: Vec::new(),
            unknowns: Vec::new(),
        }
    }

    /// The outpoint that the input spends.
    pub fn out_point(&self) -> (res: OutPoint)
        ensures
            res == input_outpoint(*self),
    {
        OutPoint { txid: self.previous_txid, vout: self.spent_output_index }
    }

    /// The output that the input spends.
    pub fn funding_utxo(&self) -> (res: Result<&TxOut, FundingUtxoError>)
        ensures
            match res {
                Ok(utxo) => funding_script(*self) == Some(utxo.script_pubkey@) && match (
                    self.witness_utxo,
                    self.non_witness_utxo,
                ) {
                    (Some(witness_utxo), _) => *utxo == witness_utxo,
                    (None, Some(tx)) => *utxo == tx.outputs@[self.spent_output_index as int],
                    (None, None) => false,
                },
                Err(FundingUtxoError::OutOfBounds { vout, len }) => {
                    &&& funding_script(*self) is None
                    &&& self.witness_utxo is None
                    &&& self.non_witness_utxo matches Some(tx) && len == tx.outputs@.len()
                    &&& vout == self.spent_output_index
                },
                Err(FundingUtxoError::MissingUtxo) => self.witness_utxo is None
                    && self.non_witness_utxo is None,
            },
    {
        match &self.witness_utxo {
            Some(utxo) => Ok(utxo),
            None => match &self.non_witness_utxo {
                Some(tx) => {
                    let vout = self.spent_output_index;
                    if (vout as usize) < tx.outputs.len() {
                        Ok(&tx.outputs[vout as usize])
                    } else {
                        Err(FundingUtxoError::OutOfBounds { vout, len: tx.outputs.len() })
                    }
                },
                None => Err(FundingUtxoError::MissingUtxo),
            },
        }
    }
}

impl Output {
    /// An output that pays `utxo`, and holds nothing else.
    pub fn new(utxo: TxOut) -> (res: Output)
        ensures
            res.amount == utxo.value,
            res.script_pubkey == utxo.script_pubkey,
            res.redeem_script is None,
            res.witness_script is None,
            res.bip32_derivations@.len() == 0,
            res.tap_internal_key is None,
            res.tap_tree is None,
            res.tap_key_origins@.len() == 0,
            res.sp_v0_info is None,
            res.sp_v0_label is None,
            res.proprietaries@.len() == 0,
            res.unknowns@.len() == 0,
    {
        Output {
            amount: utxo.value,
            script_pubkey: utxo.script_pubkey,
            redeem_script: None,
            witness_script: None,
            bip32_derivations: Vec::new(),
            tap_internal_key: None,
            tap_tree: None,
            tap_key_origins: Vec::new(),
            sp_v0_info: None,
            sp_v0_label: None,
            proprietaries: Vec::new(),
            unknowns: Vec::new(),
        }
    }
}

/// A global map of version 2 for a transaction of version 2, with nothing in it.
pub open spec fn blank_global(global: Global) -> bool {
    &&& global.version == 2
    &&& global.tx_version == 2
    &&& global.fallback_lock_time is None
    &&& global.tx_modifiable_flags == 0
    &&& global.input_count == 0
    &&& global.output_count == 0
    &&& global.xpubs@.len() == 0
    &&& global.sp_ecdh_shares@ == Map::<Seq<u8>, PublicKey>::empty()
    &&& global.sp_dleq_proofs@ == Map::<Seq<u8>, DleqProof>::empty()
    &&& global.proprietaries@.len() == 0
    &&& global.unknowns@.len() == 0
}

impl Default for Global {
    /// A global map with nothing in it.
    fn default() -> (res: Global)
        ensures
            blank_global(res),
    {
        Global {
            version: 2,
            tx_version: 2,
            fallback_lock_time: None,
            tx_modifiable_flags: 0,
            input_count: 0,
            output_count: 0,
            xpubs: Vec::new(),
            sp_ecdh_shares: KeyMap::new(),
            sp_dleq_proofs: KeyMap::new(),
            proprietaries: Vec::new(),
            unknowns: Vec::new(),
        }
    }
}

/// The output that an input spends is the one that it holds, or else the one at its position in
/// the transaction that it holds.
pub proof fn law_funding_script(input: Input)
    ensures
        input.witness_utxo matches Some(utxo) ==> funding_script(input) == Some(
            utxo.script_pubkey@,
        ),
        input.witness_utxo is None && input.non_witness_utxo is None ==> funding_script(
            input,
        ) is None,
        input.witness_utxo is None ==> (input.non_witness_utxo matches Some(tx) ==> {
            let position = input.spent_output_index as int;
            &&& funding_script(input) is Some <==> position < tx.outputs@.len()
            &&& funding_script(input) matches Some(script) ==> script
                == tx.outputs@[position].script_pubkey@
        }),
{
}

/// A transaction spends one outpoint for each of its inputs, in their order.
pub proof fn law_outpoints(inputs: Seq<Input>, i: int)
    requires
        0 <= i < inputs.len(),
    ensures
        outpoints(inputs).len() == inputs.len(),
        outpoints(inputs)[i].txid == inputs[i].previous_txid,
        outpoints(inputs)[i].vout == inputs[i].spent_output_index,
{
}

/// A new global map is of version 2, for a transaction of version 2, and holds nothing.
pub proof fn law_blank_global(global: Global, key: Seq<u8>)
    requires
        blank_global(global),
    ensures
        global.version == 2,
        global.tx_version == 2,
        global.fallback_lock_time is None,
        global.tx_modifiable_flags == 0,
        global.input_count == 0,
        global.output_count == 0,
        global.xpubs@.len() == 0,
        !global.sp_ecdh_shares@.contains_key(key),
        !global.sp_dleq_proofs@.contains_key(key),
        global.proprietaries@.len() == 0,
        global.unknowns@.len() == 0,
{
}

} // verus!
