//! The fields of the maps of a transaction, in the order in which they are serialized.

use vstd::prelude::*;
use crate::bytes;
use crate::secp;
use crate::bip375::extensions::{PSBT_IN_SP_SPEND_BIP32_DERIVATION, PSBT_IN_SP_TWEAK};
use crate::bytes::{append_bytes, append_compact_size, append_le, copy_bytes};
use crate::key_map::KeyMap;
use crate::psbt::{
    DleqProof, Global, Input, KeyOrigin, Output, PartialSig, RawEntry, RawPair, ScriptKey, TxOut,
};
use crate::secp::PublicKey;

verus! {

/// A field: its type, its key data and its value.
pub struct Field {
    pub type_value: u64,
    pub key: Seq<u8>,
    pub value: Seq<u8>,
}

/// The fields that a list of types, key data and values stands for.
pub open spec fn listed(list: Seq<(u64, Vec<u8>, Vec<u8>)>) -> Seq<Field> {
    list.map_values(
        |entry: (u64, Vec<u8>, Vec<u8>)|
            Field { type_value: entry.0, key: entry.1@, value: entry.2@ },
    )
}

/// A field without key data.
pub open spec fn plain(type_value: u64, value: Seq<u8>) -> Seq<Field> {
    seq![Field { type_value, key: Seq::empty(), value }]
}

/// A field without key data that may be absent.
pub open spec fn optional(type_value: u64, value: Option<Seq<u8>>) -> Seq<Field> {
    match value {
        Some(value) => plain(type_value, value),
        None => Seq::empty(),
    }
}

/// A field with a number of four bytes that may be absent.
pub open spec fn optional_number(type_value: u64, value: Option<u32>) -> Seq<Field> {
    match value {
        Some(value) => plain(type_value, bytes::le_bytes(value as nat, 4)),
        None => Seq::empty(),
    }
}

/// A field with a byte string that may be absent.
pub open spec fn optional_bytes(type_value: u64, value: Option<Vec<u8>>) -> Seq<Field> {
    match value {
        Some(value) => plain(type_value, value@),
        None => Seq::empty(),
    }
}

/// A field with 32 bytes that may be absent.
pub open spec fn optional_array(type_value: u64, value: Option<[u8; 32]>) -> Seq<Field> {
    match value {
        Some(value) => plain(type_value, value@),
        None => Seq::empty(),
    }
}

/// The fields of one type that are held as they are.
pub open spec fn raw_entries(type_value: u64, entries: Seq<RawEntry>) -> Seq<Field> {
    entries.map_values(
        |entry: RawEntry| Field { type_value, key: entry.key@, value: entry.value@ },
    )
}

/// Fields that are not known.
pub open spec fn raw_pairs(pairs: Seq<RawPair>) -> Seq<Field> {
    pairs.map_values(
        |pair: RawPair|
            Field { type_value: pair.type_value, key: pair.key@, value: pair.value@ },
    )
}

/// The shares, by scan key.
pub open spec fn share_fields(type_value: u64, shares: KeyMap<PublicKey>) -> Seq<Field> {
    shares.keys().map_values(
        |key: Seq<u8>| Field { type_value, key, value: shares@[key]@ },
    )
}

/// The proofs, by scan key.
pub open spec fn proof_fields(type_value: u64, proofs: KeyMap<DleqProof>) -> Seq<Field> {
    proofs.keys().map_values(
        |key: Seq<u8>| Field { type_value, key, value: proofs@[key].0@ },
    )
}

/// The encoding of a public key as a script may hold it.
pub open spec fn script_key_bytes(key: ScriptKey) -> Seq<u8> {
    if key.compressed {
        key.inner@
    } else {
        secp::uncompressed_point(key.inner@)
    }
}

/// The partial signatures, by public key.
pub open spec fn signature_fields(type_value: u64, sigs: Seq<PartialSig>) -> Seq<Field> {
    sigs.map_values(
        |sig: PartialSig|
            Field {
                type_value,
                key: script_key_bytes(sig.public_key),
                value: sig.signature@,
            },
    )
}

/// The key sources, by public key.
pub open spec fn origin_fields(type_value: u64, origins: Seq<KeyOrigin>) -> Seq<Field> {
    origins.map_values(
        |origin: KeyOrigin|
            Field { type_value, key: script_key_bytes(origin.public_key), value: origin.source@ },
    )
}

/// A byte string behind its length.
pub open spec fn sized(bytes: Seq<u8>) -> Seq<u8> {
    bytes::compact_size(bytes.len()) + bytes
}

/// The serialization of a transaction output.
pub open spec fn tx_out_bytes(output: TxOut) -> Seq<u8> {
    bytes::le_bytes(output.value as nat, 8) + sized(output.script_pubkey@)
}

/// The items of a witness, each behind its length.
pub open spec fn item_bytes(witness: Seq<Vec<u8>>) -> Seq<u8>
    decreases witness.len(),
{
    if witness.len() == 0 {
        Seq::empty()
    } else {
        item_bytes(witness.drop_last()) + sized(witness.last()@)
    }
}

/// The serialization of a witness.
pub open spec fn witness_bytes(witness: Seq<Vec<u8>>) -> Seq<u8> {
    bytes::compact_size(witness.len()) + item_bytes(witness)
}

/// The fields of a global map.
pub open spec fn global_fields(global: Global) -> Seq<Field> {
    Seq::empty() + plain(0xfb, bytes::le_bytes(global.version as nat, 4)) + plain(
        0x02,
        bytes::le_bytes(global.tx_version as nat, 4),
    ) + optional_number(0x03, global.fallback_lock_time) + plain(
        0x04,
        bytes::compact_size(global.input_count as nat),
    ) + plain(0x05, bytes::compact_size(global.output_count as nat)) + plain(
        0x06,
        seq![global.tx_modifiable_flags],
    ) + raw_entries(0x01, global.xpubs@) + share_fields(0x07, global.sp_ecdh_shares)
        + proof_fields(0x08, global.sp_dleq_proofs) + raw_entries(0xfc, global.proprietaries@)
        + raw_pairs(global.unknowns@)
}

/// The fields of the map of an input.
pub open spec fn input_fields(input: Input) -> Seq<Field> {
    Seq::empty() + plain(0x0e, input.previous_txid@) + plain(
        0x0f,
        bytes::le_bytes(input.spent_output_index as nat, 4),
    ) + optional_number(0x10, input.sequence) + optional_number(0x11, input.min_time)
        + optional_number(0x12, input.min_height) + optional(
        0x00,
        match input.non_witness_utxo {
            Some(tx) => Some(tx.raw@),
            None => None,
        },
    ) + optional(
        0x01,
        match input.witness_utxo {
            Some(utxo) => Some(tx_out_bytes(utxo)),
            None => None,
        },
    ) + signature_fields(0x02, input.partial_sigs@) + optional_number(0x03, input.sighash_type)
        + optional_bytes(0x04, input.redeem_script) + optional_bytes(0x05, input.witness_script)
        + origin_fields(0x06, input.bip32_derivations@) + optional_bytes(
        0x07,
        input.final_script_sig,
    ) + optional(
        0x08,
        match input.final_script_witness {
            Some(witness) => Some(witness_bytes(witness@)),
            None => None,
        },
    ) + raw_entries(0x0a, input.ripemd160_preimages@) + raw_entries(0x0b, input.sha256_preimages@)
        + raw_entries(0x0c, input.hash160_preimages@) + raw_entries(0x0d, input.hash256_preimages@)
        + optional_bytes(0x13, input.tap_key_sig) + raw_entries(0x14, input.tap_script_sigs@)
        + raw_entries(0x15, input.tap_scripts@) + raw_entries(0x16, input.tap_key_origins@)
        + optional_array(0x17, input.tap_internal_key) + optional_array(
        0x18,
        input.tap_merkle_root,
    ) + raw_entries(0x1a, input.musig2_participant_pubkeys@) + raw_entries(
        0x1b,
        input.musig2_pub_nonces@,
    ) + raw_entries(0x1c, input.musig2_partial_sigs@) + share_fields(0x1d, input.sp_ecdh_shares)
        + proof_fields(0x1e, input.sp_dleq_proofs) + raw_entries(
        PSBT_IN_SP_SPEND_BIP32_DERIVATION,
        input.sp_spend_bip32_derivations@,
    ) + optional_array(PSBT_IN_SP_TWEAK, input.sp_tweak) + raw_entries(
        0xfc,
        input.proprietaries@,
    ) + raw_pairs(input.unknowns@)
}

/// The fields of the map of an output.
pub open spec fn output_fields(output: Output) -> Seq<Field> {
    Seq::empty() + plain(0x03, bytes::le_bytes(output.amount as nat, 8)) + plain(
        0x04,
        output.script_pubkey@,
    ) + optional_bytes(0x00, output.redeem_script) + optional_bytes(0x01, output.witness_script)
        + origin_fields(0x02, output.bip32_derivations@) + optional_array(
        0x05,
        output.tap_internal_key,
    ) + optional_bytes(0x06, output.tap_tree) + raw_entries(0x07, output.tap_key_origins@)
        + optional_bytes(0x09, output.sp_v0_info) + optional_number(0x0a, output.sp_v0_label)
        + raw_entries(0xfc, output.proprietaries@) + raw_pairs(output.unknowns@)
}

/// The fields of a global map.
pub trait GlobalFieldsExt {
    /// Lists the fields as their types, key data and values, in the order of serialization.
    fn iter_global_fields(&self) -> Vec<(u64, Vec<u8>, Vec<u8>)>;
}

/// The fields of the map of an input.
pub trait InputFieldsExt {
    /// Lists the fields as their types, key data and values, in the order of serialization.
    fn iter_input_fields(&self) -> Vec<(u64, Vec<u8>, Vec<u8>)>;
}

/// The fields of the map of an output.
pub trait OutputFieldsExt {
    /// Lists the fields as their types, key data and values, in the order of serialization.
    fn iter_output_fields(&self) -> Vec<(u64, Vec<u8>, Vec<u8>)>;
}

fn push_field(
    list: &mut Vec<(u64, Vec<u8>, Vec<u8>)>,
    type_value: u64,
    key: Vec<u8>,
    value: Vec<u8>,
)
    ensures
        listed(final(list)@) == listed(old(list)@).push(
            Field { type_value, key: key@, value: value@ },
        ),
{
    list.push((type_value, key, value));
    assert(listed(list@) =~= listed(old(list)@).push(
        Field { type_value, key: key@, value: value@ },
    ));
}

fn push_plain(list: &mut Vec<(u64, Vec<u8>, Vec<u8>)>, type_value: u64, value: Vec<u8>)
    ensures
        listed(final(list)@) == listed(old(list)@) + plain(type_value, value@),
{
    let key: Vec<u8> = Vec::new();
    assert(key@ =~= Seq::empty());
    push_field(list, type_value, key, value);
    assert(listed(list@) =~= listed(old(list)@) + plain(type_value, value@));
}

fn push_number(list: &mut Vec<(u64, Vec<u8>, Vec<u8>)>, type_value: u64, number: u32)
    ensures
        listed(final(list)@) == listed(old(list)@) + plain(
            type_value,
            bytes::le_bytes(number as nat, 4),
        ),
{
    let mut value: Vec<u8> = Vec::new();
    append_le(&mut value, number as u64, 4);
    assert(value@ =~= bytes::le_bytes(number as nat, 4));
    push_plain(list, type_value, value);
}

fn push_count(list: &mut Vec<(u64, Vec<u8>, Vec<u8>)>, type_value: u64, count: usize)
    ensures
        listed(final(list)@) == listed(old(list)@) + plain(
            type_value,
            bytes::compact_size(count as nat),
        ),
{
    let mut value: Vec<u8> = Vec::new();
    append_compact_size(&mut value, count);
    assert(value@ =~= bytes::compact_size(count as nat));
    push_plain(list, type_value, value);
}

fn push_optional_number(
    list: &mut Vec<(u64, Vec<u8>, Vec<u8>)>,
    type_value: u64,
    number: Option<u32>,
)
    ensures
        listed(final(list)@) == listed(old(list)@) + optional_number(type_value, number),
{
    if let Some(number) = number {
        push_number(list, type_value, number);
    } else {
        assert(listed(list@) =~= listed(list@) + Seq::<Field>::empty());
    }
}

fn push_optional_bytes(
    list: &mut Vec<(u64, Vec<u8>, Vec<u8>)>,
    type_value: u64,
    value: &Option<Vec<u8>>,
)
    ensures
        listed(final(list)@) == listed(old(list)@) + optional_bytes(type_value, *value),
{
    if let Some(value) = value {
        push_plain(list, type_value, copy_bytes(value.as_slice()));
    } else {
        assert(listed(list@) =~= listed(list@) + Seq::<Field>::empty());
    }
}

fn push_optional_array(
    list: &mut Vec<(u64, Vec<u8>, Vec<u8>)>,
    type_value: u64,
    value: &Option<[u8; 32]>,
)
    ensures
        listed(final(list)@) == listed(old(list)@) + optional_array(type_value, *value),
{
    if let Some(value) = value {
        push_plain(list, type_value, copy_bytes(value));
    } else {
        assert(listed(list@) =~= listed(list@) + Seq::<Field>::empty());
    }
}

fn push_raw_entries(
    list: &mut Vec<(u64, Vec<u8>, Vec<u8>)>,
    type_value: u64,
    entries: &Vec<RawEntry>,
)
    ensures
        listed(final(list)@) == listed(old(list)@) + raw_entries(type_value, entries@),
{
    let ghost before = listed(list@);
    let ghost fields = raw_entries(type_value, entries@);
    let mut i: usize = 0;
    assert(before =~= before + fields.take(0));
    while i < entries.len()
        invariant
            i <= entries@.len(),
            fields == raw_entries(type_value, entries@),
            listed(list@) == before + fields.take(i as int),
        decreases entries@.len() - i,
    {
        let entry = &entries[i];
        push_field(
            list,
            type_value,
            copy_bytes(entry.key.as_slice()),
            copy_bytes(entry.value.as_slice()),
        );
        i += 1;
        assert(listed(list@) =~= before + fields.take(i as int));
    }
    assert(fields.take(i as int) =~= fields);
}

fn push_raw_pairs(list: &mut Vec<(u64, Vec<u8>, Vec<u8>)>, pairs: &Vec<RawPair>)
    ensures
        listed(final(list)@) == listed(old(list)@) + raw_pairs(pairs@),
{
    let ghost before = listed(list@);
    let ghost fields = raw_pairs(pairs@);
    let mut i: usize = 0;
    assert(before =~= before + fields.take(0));
    while i < pairs.len()
        invariant
            i <= pairs@.len(),
            fields == raw_pairs(pairs@),
            listed(list@) == before + fields.take(i as int),
        decreases pairs@.len() - i,
    {
        let pair = &pairs[i];
        push_field(
            list,
            pair.type_value,
            copy_bytes(pair.key.as_slice()),
            copy_bytes(pair.value.as_slice()),
        );
        i += 1;
        assert(listed(list@) =~= before + fields.take(i as int));
    }
    assert(fields.take(i as int) =~= fields);
}

fn push_shares(
    list: &mut Vec<(u64, Vec<u8>, Vec<u8>)>,
    type_value: u64,
    shares: &KeyMap<PublicKey>,
)
    ensures
        listed(final(list)@) == listed(old(list)@) + share_fields(type_value, *shares),
{
    let ghost before = listed(list@);
    let ghost fields = share_fields(type_value, *shares);
    let len = shares.len();
    let mut i: usize = 0;
    assert(before =~= before + fields.take(0));
    while i < len
        invariant
            i <= len,
            len == shares.keys().len(),
            fields == share_fields(type_value, *shares),
            listed(list@) == before + fields.take(i as int),
        decreases len - i,
    {
        let (key, share) = shares.at(i);
        push_field(
            list,
            type_value,
            copy_bytes(&key.serialize()),
            copy_bytes(&share.serialize()),
        );
        i += 1;
        assert(listed(list@) =~= before + fields.take(i as int));
    }
    assert(fields.take(i as int) =~= fields);
}

fn push_proofs(
    list: &mut Vec<(u64, Vec<u8>, Vec<u8>)>,
    type_value: u64,
    proofs: &KeyMap<DleqProof>,
)
    ensures
        listed(final(list)@) == listed(old(list)@) + proof_fields(type_value, *proofs),
{
    let ghost before = listed(list@);
    let ghost fields = proof_fields(type_value, *proofs);
    let len = proofs.len();
    let mut i: usize = 0;
    assert(before =~= before + fields.take(0));
    while i < len
        invariant
            i <= len,
            len == proofs.keys().len(),
            fields == proof_fields(type_value, *proofs),
            listed(list@) == before + fields.take(i as int),
        decreases len - i,
    {
        let (key, dleq_proof) = proofs.at(i);
        push_field(
            list,
            type_value,
            copy_bytes(&key.serialize()),
            copy_bytes(&dleq_proof.0),
        );
        i += 1;
        assert(listed(list@) =~= before + fields.take(i as int));
    }
    assert(fields.take(i as int) =~= fields);
}

/// Serializes a public key as a script may hold it.
fn serialize_script_key(key: &ScriptKey) -> (res: Vec<u8>)
    ensures
        res@ == script_key_bytes(*key),
{
    if key.compressed {
        copy_bytes(&key.inner.serialize())
    } else {
        copy_bytes(&key.inner.serialize_uncompressed())
    }
}

fn push_signatures(
    list: &mut Vec<(u64, Vec<u8>, Vec<u8>)>,
    type_value: u64,
    sigs: &Vec<PartialSig>,
)
    ensures
        listed(final(list)@) == listed(old(list)@) + signature_fields(type_value, sigs@),
{
    let ghost before = listed(list@);
    let ghost fields = signature_fields(type_value, sigs@);
    let mut i: usize = 0;
    assert(before =~= before + fields.take(0));
    while i < sigs.len()
        invariant
            i <= sigs@.len(),
            fields == signature_fields(type_value, sigs@),
            listed(list@) == before + fields.take(i as int),
        decreases sigs@.len() - i,
    {
        let sig = &sigs[i];
        push_field(
            list,
            type_value,
            serialize_script_key(&sig.public_key),
            copy_bytes(sig.signature.as_slice()),
        );
        i += 1;
        assert(listed(list@) =~= before + fields.take(i as int));
    }
    assert(fields.take(i as int) =~= fields);
}

fn push_origins(
    list: &mut Vec<(u64, Vec<u8>, Vec<u8>)>,
    type_value: u64,
    origins: &Vec<KeyOrigin>,
)
    ensures
        listed(final(list)@) == listed(old(list)@) + origin_fields(type_value, origins@),
{
    let ghost before = listed(list@);
    let ghost fields = origin_fields(type_value, origins@);
    let mut i: usize = 0;
    assert(before =~= before + fields.take(0));
    while i < origins.len()
        invariant
            i <= origins@.len(),
            fields == origin_fields(type_value, origins@),
            listed(list@) == before + fields.take(i as int),
        decreases origins@.len() - i,
    {
        let origin = &origins[i];
        push_field(
            list,
            type_value,
            serialize_script_key(&origin.public_key),
            copy_bytes(origin.source.as_slice()),
        );
        i += 1;
        assert(listed(list@) =~= before + fields.take(i as int));
    }
    assert(fields.take(i as int) =~= fields);
}

fn append_sized(out: &mut Vec<u8>, bytes: &[u8])
    ensures
        final(out)@ == old(out)@ + sized(bytes@),
{
    append_compact_size(out, bytes.len());
    append_bytes(out, bytes);
    assert(out@ =~= old(out)@ + sized(bytes@));
}

/// Serializes a transaction output.
fn serialize_tx_out(output: &TxOut) -> (res: Vec<u8>)
    ensures
        res@ == tx_out_bytes(*output),
{
    let mut res: Vec<u8> = Vec::new();
    append_le(&mut res, output.value, 8);
    append_sized(&mut res, output.script_pubkey.as_slice());
    assert(res@ =~= tx_out_bytes(*output));
    res
}

/// Serializes a witness.
fn serialize_witness(witness: &Vec<Vec<u8>>) -> (res: Vec<u8>)
    ensures
        res@ == witness_bytes(witness@),
{
    let mut res: Vec<u8> = Vec::new();
    append_compact_size(&mut res, witness.len());
    let ghost count = bytes::compact_size(witness@.len());
    assert(res@ =~= count + item_bytes(witness@.take(0)));
    let mut i: usize = 0;
    while i < witness.len()
        invariant
            i <= witness@.len(),
            res@ == count + item_bytes(witness@.take(i as int)),
        decreases witness@.len() - i,
    {
        let ghost before = res@;
        append_sized(&mut res, witness[i].as_slice());
        assert(witness@.take(i + 1).drop_last() =~= witness@.take(i as int));
        assert(res@ =~= count + item_bytes(witness@.take(i + 1)));
        i += 1;
    }
    assert(witness@.take(i as int) =~= witness@);
    res
}

impl GlobalFieldsExt for Global {
    fn iter_global_fields(&self) -> (res: Vec<(u64, Vec<u8>, Vec<u8>)>)
        ensures
            listed(res@) == global_fields(*self),
    {
        let mut res: Vec<(u64, Vec<u8>, Vec<u8>)> = Vec::new();
        assert(listed(res@) =~= Seq::empty());
        push_number(&mut res, 0xfb, self.version);
        push_number(&mut res, 0x02, self.tx_version);
        push_optional_number(&mut res, 0x03, self.fallback_lock_time);
        push_count(&mut res, 0x04, self.input_count);
        push_count(&mut res, 0x05, self.output_count);
        let mut flags: Vec<u8> = Vec::new();
        flags.push(self.tx_modifiable_flags);
        assert(flags@ =~= seq![self.tx_modifiable_flags]);
        push_plain(&mut res, 0x06, flags);
        push_raw_entries(&mut res, 0x01, &self.xpubs);
        push_shares(&mut res, 0x07, &self.sp_ecdh_shares);
        push_proofs(&mut res, 0x08, &self.sp_dleq_proofs);
        push_raw_entries(&mut res, 0xfc, &self.proprietaries);
        push_raw_pairs(&mut res, &self.unknowns);
        res
    }
}

impl InputFieldsExt for Input {
    fn iter_input_fields(&self) -> (res: Vec<(u64, Vec<u8>, Vec<u8>)>)
        ensures
            listed(res@) == input_fields(*self),
    {
        let mut res: Vec<(u64, Vec<u8>, Vec<u8>)> = Vec::new();
        assert(listed(res@) =~= Seq::empty());
        push_plain(&mut res, 0x0e, copy_bytes(&self.previous_txid));
        push_number(&mut res, 0x0f, self.spent_output_index);
        push_optional_number(&mut res, 0x10, self.sequence);
        push_optional_number(&mut res, 0x11, self.min_time);
        push_optional_number(&mut res, 0x12, self.min_height);
        let non_witness_utxo = match &self.non_witness_utxo {
            Some(tx) => Some(copy_bytes(tx.raw.as_slice())),
            None => None,
        };
        push_optional_bytes(&mut res, 0x00, &non_witness_utxo);
        let witness_utxo = match &self.witness_utxo {
            Some(utxo) => Some(serialize_tx_out(utxo)),
            None => None,
        };
        push_optional_bytes(&mut res, 0x01, &witness_utxo);
        push_signatures(&mut res, 0x02, &self.partial_sigs);
        push_optional_number(&mut res, 0x03, self.sighash_type);
        push_optional_bytes(&mut res, 0x04, &self.redeem_script);
        push_optional_bytes(&mut res, 0x05, &self.witness_script);
        push_origins(&mut res, 0x06, &self.bip32_derivations);
        push_optional_bytes(&mut res, 0x07, &self.final_script_sig);
        let final_script_witness = match &self.final_script_witness {
            Some(witness) => Some(serialize_witness(witness)),
            None => None,
        };
        push_optional_bytes(&mut res, 0x08, &final_script_witness);
        push_raw_entries(&mut res, 0x0a, &self.ripemd160_preimages);
        push_raw_entries(&mut res, 0x0b, &self.sha256_preimages);
        push_raw_entries(&mut res, 0x0c, &self.hash160_preimages);
        push_raw_entries(&mut res, 0x0d, &self.hash256_preimages);
        push_optional_bytes(&mut res, 0x13, &self.tap_key_sig);
        push_raw_entries(&mut res, 0x14, &self.tap_script_sigs);
        push_raw_entries(&mut res, 0x15, &self.tap_scripts);
        push_raw_entries(&mut res, 0x16, &self.tap_key_origins);
        push_optional_array(&mut res, 0x17, &self.tap_internal_key);
        push_optional_array(&mut res, 0x18, &self.tap_merkle_root);
        push_raw_entries(&mut res, 0x1a, &self.musig2_participant_pubkeys);
        push_raw_entries(&mut res, 0x1b, &self.musig2_pub_nonces);
        push_raw_entries(&mut res, 0x1c, &self.musig2_partial_sigs);
        push_shares(&mut res, 0x1d, &self.sp_ecdh_shares);
        push_proofs(&mut res, 0x1e, &self.sp_dleq_proofs);
        push_raw_entries(
            &mut res,
            PSBT_IN_SP_SPEND_BIP32_DERIVATION,
            &self.sp_spend_bip32_derivations,
        );
        push_optional_array(&mut res, PSBT_IN_SP_TWEAK, &self.sp_tweak);
        push_raw_entries(&mut res, 0xfc, &self.proprietaries);
        push_raw_pairs(&mut res, &self.unknowns);
        res
    }
}

impl OutputFieldsExt for Output {
    fn iter_output_fields(&self) -> (res: Vec<(u64, Vec<u8>, Vec<u8>)>)
        ensures
            listed(res@) == output_fields(*self),
    {
        let mut res: Vec<(u64, Vec<u8>, Vec<u8>)> = Vec::new();
        assert(listed(res@) =~= Seq::empty());
        let mut amount: Vec<u8> = Vec::new();
        append_le(&mut amount, self.amount, 8);
        assert(amount@ =~= bytes::le_bytes(self.amount as nat, 8));
        push_plain(&mut res, 0x03, amount);
        push_plain(&mut res, 0x04, copy_bytes(self.script_pubkey.as_slice()));
        push_optional_bytes(&mut res, 0x00, &self.redeem_script);
        push_optional_bytes(&mut res, 0x01, &self.witness_script);
        push_origins(&mut res, 0x02, &self.bip32_derivations);
        push_optional_array(&mut res, 0x05, &self.tap_internal_key);
        push_optional_bytes(&mut res, 0x06, &self.tap_tree);
        push_raw_entries(&mut res, 0x07, &self.tap_key_origins);
        push_optional_bytes(&mut res, 0x09, &self.sp_v0_info);
        push_optional_number(&mut res, 0x0a, self.sp_v0_label);
        push_raw_entries(&mut res, 0xfc, &self.proprietaries);
        push_raw_pairs(&mut res, &self.unknowns);
        res
    }
}

/// Fields that are held as they are keep their number, their order, their key data and their
/// values.
pub proof fn law_raw_fields(type_value: u64, entries: Seq<RawEntry>, pairs: Seq<RawPair>, i: int)
    ensures
        raw_entries(type_value, entries).len() == entries.len(),
        0 <= i < entries.len() ==> raw_entries(type_value, entries)[i] == (Field {
            type_value,
            key: entries[i].key@,
            value: entries[i].value@,
        }),
        raw_pairs(pairs).len() == pairs.len(),
        0 <= i < pairs.len() ==> raw_pairs(pairs)[i] == (Field {
            type_value: pairs[i].type_value,
            key: pairs[i].key@,
            value: pairs[i].value@,
        }),
{
}

/// There is a field for each share and each proof, under its scan key, in the order of the scan
/// keys.
pub proof fn law_share_fields(
    type_value: u64,
    shares: KeyMap<PublicKey>,
    proofs: KeyMap<DleqProof>,
    i: int,
)
    ensures
        share_fields(type_value, shares).len() == shares.keys().len(),
        0 <= i < shares.keys().len() ==> share_fields(type_value, shares)[i] == (Field {
            type_value,
            key: shares.keys()[i],
            value: shares@[shares.keys()[i]]@,
        }),
        proof_fields(type_value, proofs).len() == proofs.keys().len(),
        0 <= i < proofs.keys().len() ==> proof_fields(type_value, proofs)[i] == (Field {
            type_value,
            key: proofs.keys()[i],
            value: proofs@[proofs.keys()[i]].0@,
        }),
{
}

/// There is a field for each signature and each key source, under its public key, compressed or not
/// as it is marked, in their order.
pub proof fn law_keyed_fields(
    type_value: u64,
    sigs: Seq<PartialSig>,
    origins: Seq<KeyOrigin>,
    i: int,
)
    ensures
        signature_fields(type_value, sigs).len() == sigs.len(),
        0 <= i < sigs.len() ==> signature_fields(type_value, sigs)[i] == (Field {
            type_value,
            key: if sigs[i].public_key.compressed {
                sigs[i].public_key.inner@
            } else {
                secp::uncompressed_point(sigs[i].public_key.inner@)
            },
            value: sigs[i].signature@,
        }),
        origin_fields(type_value, origins).len() == origins.len(),
        0 <= i < origins.len() ==> origin_fields(type_value, origins)[i] == (Field {
            type_value,
            key: if origins[i].public_key.compressed {
                origins[i].public_key.inner@
            } else {
                secp::uncompressed_point(origins[i].public_key.inner@)
            },
            value: origins[i].source@,
        }),
{
}

/// A field without key data has its type and its value; one that may be absent is there where its
/// value is, numbers in four bytes, the lowest one first.
pub proof fn law_single_fields(
    type_value: u64,
    value: Seq<u8>,
    number: Option<u32>,
    bytes: Option<Vec<u8>>,
    array: Option<[u8; 32]>,
)
    ensures
        plain(type_value, value) == seq![Field { type_value, key: Seq::empty(), value }],
        optional(type_value, Some(value)) == plain(type_value, value),
        optional(type_value, None).len() == 0,
        optional_number(type_value, number) == (match number {
            Some(n) => plain(
                type_value,
                seq![
                    (n % 0x100) as u8,
                    (n / 0x100 % 0x100) as u8,
                    (n / 0x1_0000 % 0x100) as u8,
                    (n / 0x100_0000) as u8,
                ],
            ),
            None => Seq::empty(),
        }),
        optional_bytes(type_value, bytes) == (match bytes {
            Some(bytes) => plain(type_value, bytes@),
            None => Seq::empty(),
        }),
        optional_array(type_value, array) == (match array {
            Some(array) => plain(type_value, array@),
            None => Seq::empty(),
        }),
{
    if let Some(n) = number {
        bytes::law_le_four(n);
    }
}

/// An output is serialized as its value in eight bytes, the lowest one first, and its script behind
/// the length of the script.
pub proof fn law_tx_out_bytes(output: TxOut)
    ensures
        ({
            let all = tx_out_bytes(output);
            let script = output.script_pubkey@;
            &&& all.len() >= 8
            &&& bytes::be_value(all.take(8).reverse()) == output.value
            &&& all.skip(8) == bytes::compact_size(script.len()) + script
        }),
{
    let all = tx_out_bytes(output);
    let value = bytes::le_bytes(output.value as nat, 8);
    reveal_with_fuel(vstd::arithmetic::power::pow, 9);
    bytes::law_encodings_stand_for_numbers(output.value as nat, 8);
    bytes::lemma_le_bytes_len(output.value as nat, 8);
    assert(all.take(8) =~= value);
    assert(value.reverse() =~= bytes::be_bytes(output.value as nat, 8));
    assert(all.skip(8) =~= bytes::compact_size(output.script_pubkey@.len())
        + output.script_pubkey@);
}

/// A witness is serialized as the number of its items and the items in their order, each behind its
/// length.
pub proof fn law_witness_bytes(a: Seq<Vec<u8>>, b: Seq<Vec<u8>>, item: Vec<u8>)
    ensures
        witness_bytes(a) == bytes::compact_size(a.len()) + item_bytes(a),
        item_bytes(Seq::empty()) == Seq::<u8>::empty(),
        item_bytes(seq![item]) == bytes::compact_size(item@.len()) + item@,
        item_bytes(a + b) == item_bytes(a) + item_bytes(b),
    decreases b.len(),
{
    reveal_with_fuel(item_bytes, 2);
    assert(seq![item].drop_last() =~= Seq::empty());
    assert(item_bytes(seq![item]) =~= sized(item@));
    if b.len() == 0 {
        assert(a + b =~= a);
        assert(item_bytes(a) + item_bytes(b) =~= item_bytes(a));
    } else {
        law_witness_bytes(a, b.drop_last(), item);
        assert((a + b).drop_last() =~= a + b.drop_last());
        assert((a + b).last() == b.last());
        assert(item_bytes(a + b) =~= item_bytes(a) + item_bytes(b));
    }
}

/// The fields of a global map, by their types, in the order of serialization.
pub proof fn law_global_fields(global: Global)
    ensures
        global_fields(global) == plain(251, bytes::le_bytes(global.version as nat, 4)) + plain(
            2,
            bytes::le_bytes(global.tx_version as nat, 4),
        ) + optional_number(3, global.fallback_lock_time) + plain(
            4,
            bytes::compact_size(global.input_count as nat),
        ) + plain(5, bytes::compact_size(global.output_count as nat)) + plain(
            6,
            seq![global.tx_modifiable_flags],
        ) + raw_entries(1, global.xpubs@) + share_fields(7, global.sp_ecdh_shares) + proof_fields(
            8,
            global.sp_dleq_proofs,
        ) + raw_entries(252, global.proprietaries@) + raw_pairs(global.unknowns@),
{
    let first = plain(251, bytes::le_bytes(global.version as nat, 4));
    assert(Seq::empty() + first =~= first);
}

/// The fields of the map of an input, by their types, in the order of serialization.
pub proof fn law_input_fields(input: Input)
    ensures
        input_fields(input) == plain(14, input.previous_txid@) + plain(
            15,
            bytes::le_bytes(input.spent_output_index as nat, 4),
        ) + optional_number(16, input.sequence) + optional_number(17, input.min_time)
            + optional_number(18, input.min_height) + optional(
            0,
            match input.non_witness_utxo {
                Some(tx) => Some(tx.raw@),
                None => None,
            },
        ) + optional(
            1,
            match input.witness_utxo {
                Some(utxo) => Some(tx_out_bytes(utxo)),
                None => None,
            },
        ) + signature_fields(2, input.partial_sigs@) + optional_number(3, input.sighash_type)
            + optional_bytes(4, input.redeem_script) + optional_bytes(5, input.witness_script)
            + origin_fields(6, input.bip32_derivations@) + optional_bytes(
            7,
            input.final_script_sig,
        ) + optional(
            8,
            match input.final_script_witness {
                Some(witness) => Some(witness_bytes(witness@)),
                None => None,
            },
        ) + raw_entries(10, input.ripemd160_preimages@) + raw_entries(11, input.sha256_preimages@)
            + raw_entries(12, input.hash160_preimages@) + raw_entries(
            13,
            input.hash256_preimages@,
        ) + optional_bytes(19, input.tap_key_sig) + raw_entries(20, input.tap_script_sigs@)
            + raw_entries(21, input.tap_scripts@) + raw_entries(22, input.tap_key_origins@)
            + optional_array(23, input.tap_internal_key) + optional_array(
            24,
            input.tap_merkle_root,
        ) + raw_entries(26, input.musig2_participant_pubkeys@) + raw_entries(
            27,
            input.musig2_pub_nonces@,
        ) + raw_entries(28, input.musig2_partial_sigs@) + share_fields(29, input.sp_ecdh_shares)
            + proof_fields(30, input.sp_dleq_proofs) + raw_entries(
            31,
            input.sp_spend_bip32_derivations@,
        ) + optional_array(32, input.sp_tweak) + raw_entries(252, input.proprietaries@)
            + raw_pairs(input.unknowns@),
{
    let first = plain(14, input.previous_txid@);
    assert(Seq::empty() + first =~= first);
}

/// The fields of the map of an output, by their types, in the order of serialization.
pub proof fn law_output_fields(output: Output)
    ensures
        output_fields(output) == plain(3, bytes::le_bytes(output.amount as nat, 8)) + plain(
            4,
            output.script_pubkey@,
        ) + optional_bytes(0, output.redeem_script) + optional_bytes(1, output.witness_script)
            + origin_fields(2, output.bip32_derivations@) + optional_array(
            5,
            output.tap_internal_key,
        ) + optional_bytes(6, output.tap_tree) + raw_entries(7, output.tap_key_origins@)
            + optional_bytes(9, output.sp_v0_info) + optional_number(10, output.sp_v0_label)
            + raw_entries(252, output.proprietaries@) + raw_pairs(output.unknowns@),
{
    let first = plain(3, bytes::le_bytes(output.amount as nat, 8));
    assert(Seq::empty() + first =~= first);
}

} // verus!
