//! The tagged hashes of BIP-352.

use vstd::prelude::*;
use crate::bytes;
use crate::secp;
use crate::bytes::{append_bytes, append_le, be_four, copy_bytes, precedes};
use crate::secp::{PublicKey, Scalar, SecretKey};

verus! {

/// The bytes of `BIP0352/Inputs`.
pub const INPUTS_TAG: [u8; 14] = [
    0x42, 0x49, 0x50, 0x30, 0x33, 0x35, 0x32, 0x2f, 0x49, 0x6e, 0x70, 0x75, 0x74, 0x73,
];

/// The bytes of `BIP0352/Label`.
pub const LABEL_TAG: [u8; 13] = [
    0x42, 0x49, 0x50, 0x30, 0x33, 0x35, 0x32, 0x2f, 0x4c, 0x61, 0x62, 0x65, 0x6c,
];

/// The bytes of `BIP0352/SharedSecret`.
pub const SHARED_SECRET_TAG: [u8; 20] = [
    0x42, 0x49, 0x50, 0x30, 0x33, 0x35, 0x32, 0x2f, 0x53, 0x68, 0x61, 0x72, 0x65, 0x64, 0x53, 0x65,
    0x63, 0x72, 0x65, 0x74,
];

/// The SHA-256 digest of a byte string, as `bitcoin_hashes::sha256::Hash::hash` computes it.
pub uninterp spec fn sha256_digest(data: Seq<u8>) -> Seq<u8>;

/// Calls `bitcoin_hashes::sha256::Hash::hash`: the name `sha256_digest` says what the 32 bytes of
/// the digest are.
#[verifier::external_body]
fn sha256(data: &[u8]) -> (res: [u8; 32])
    ensures
        res@ == sha256_digest(data@),
{
    bitcoin_hashes::Hash::to_byte_array(
        <bitcoin_hashes::sha256::Hash as bitcoin_hashes::Hash>::hash(data),
    )
}

/// The hash of a message under a tag: the digest of the tag's digest, twice, and the message.
pub open spec fn tagged_digest(tag: Seq<u8>, message: Seq<u8>) -> Seq<u8> {
    sha256_digest(sha256_digest(tag) + sha256_digest(tag) + message)
}

/// Hashes a message under a tag.
fn tagged_hash(tag: &[u8], message: &[u8]) -> (res: [u8; 32])
    ensures
        res@ == tagged_digest(tag@, message@),
{
    let tag_hash = sha256(tag);
    let mut data: Vec<u8> = Vec::with_capacity(96);
    append_bytes(&mut data, &tag_hash);
    append_bytes(&mut data, &tag_hash);
    append_bytes(&mut data, message);
    assert(data@ =~= sha256_digest(tag@) + sha256_digest(tag@) + message@);
    sha256(data.as_slice())
}

/// An error of the hash functions.
#[derive(Debug)]
pub enum Error {
    GenericError(String),
}

/// The output of an earlier transaction that an input spends.
#[derive(Clone, Copy, Debug, PartialEq, Eq)]
pub struct OutPoint {
    /// The hash of the earlier transaction.
    pub txid: [u8; 32],
    /// The position of the output in that transaction.
    pub vout: u32,
}

/// The serialization of an outpoint: the transaction's hash, and the position in four bytes, the
/// lowest one first.
pub open spec fn outpoint_bytes(outpoint: OutPoint) -> Seq<u8> {
    outpoint.txid@ + bytes::le_bytes(outpoint.vout as nat, 4)
}

/// The serializations of a sequence of outpoints.
pub open spec fn serialized(outpoints: Seq<OutPoint>) -> Seq<Seq<u8>> {
    outpoints.map_values(|outpoint: OutPoint| outpoint_bytes(outpoint))
}

impl OutPoint {
    /// Serializes the outpoint.
    pub fn serialize(&self) -> (res: Vec<u8>)
        ensures
            res@ == outpoint_bytes(*self),
    {
        let mut res = copy_bytes(&self.txid);
        append_le(&mut res, self.vout as u64, 4);
        res
    }
}

/// `bytes` is among `all`, and nothing among them precedes it.
pub open spec fn is_least(bytes: Seq<u8>, all: Seq<Seq<u8>>) -> bool {
    &&& all.contains(bytes)
    &&& forall|i: int| 0 <= i < all.len() ==> !bytes::lex_less(#[trigger] all[i], bytes)
}

/// The lexicographically smallest of some byte strings.
pub open spec fn least(all: Seq<Seq<u8>>) -> Seq<u8> {
    choose|bytes: Seq<u8>| is_least(bytes, all)
}

/// There is only one smallest byte string.
pub proof fn lemma_least_unique(bytes: Seq<u8>, all: Seq<Seq<u8>>)
    requires
        is_least(bytes, all),
    ensures
        least(all) == bytes,
{
    let other = least(all);
    assert(is_least(other, all));
    let i = choose|i: int| 0 <= i < all.len() && all[i] == bytes;
    let j = choose|j: int| 0 <= j < all.len() && all[j] == other;
    bytes::lemma_lex_total(all[i], all[j]);
}

/// The hash over a transaction's inputs: of the smallest serialized outpoint, and the sum of the
/// inputs' public keys.
pub open spec fn input_digest(outpoints: Seq<OutPoint>, key_sum: Seq<u8>) -> Seq<u8> {
    tagged_digest(INPUTS_TAG@, least(serialized(outpoints)) + key_sum)
}

/// The hash over the inputs does not depend on the order in which the outpoints are given, nor on
/// how often one is repeated.
pub proof fn law_input_digest_order(a: Seq<OutPoint>, b: Seq<OutPoint>, key_sum: Seq<u8>)
    requires
        a.len() > 0,
        forall|outpoint: OutPoint| a.contains(outpoint) <==> b.contains(outpoint),
    ensures
        input_digest(a, key_sum) == input_digest(b, key_sum),
{
    lemma_least_exists(serialized(a));
    let bytes = least(serialized(a));
    assert(is_least(bytes, serialized(a)));
    let i = choose|i: int| 0 <= i < serialized(a).len() && serialized(a)[i] == bytes;
    assert(a.contains(a[i]));
    let j = choose|j: int| 0 <= j < b.len() && b[j] == a[i];
    assert(serialized(b)[j] == bytes);
    assert forall|k: int| 0 <= k < serialized(b).len() implies !bytes::lex_less(
        #[trigger] serialized(b)[k],
        bytes,
    ) by {
        assert(b.contains(b[k]));
        let l = choose|l: int| 0 <= l < a.len() && a[l] == b[k];
        assert(serialized(a)[l] == serialized(b)[k]);
    }
    lemma_least_unique(bytes, serialized(b));
}

/// Of some byte strings there is a smallest one.
pub proof fn lemma_least_exists(all: Seq<Seq<u8>>)
    requires
        all.len() > 0,
    ensures
        is_least(least(all), all),
    decreases all.len(),
{
    if all.len() == 1 {
        assert(all.contains(all[0]));
        assert forall|i: int| 0 <= i < all.len() implies !bytes::lex_less(
            #[trigger] all[i],
            all[0],
        ) by {
            if bytes::lex_less(all[i], all[0]) {
                bytes::lemma_lex_asymmetric(all[i], all[0]);
            }
        }
        assert(is_least(all[0], all));
    } else {
        let rest = all.drop_last();
        lemma_least_exists(rest);
        let bytes = least(rest);
        let i = choose|i: int| 0 <= i < rest.len() && rest[i] == bytes;
        assert(all[i] == bytes);
        let last = all.last();
        assert(all.contains(last));
        if bytes::lex_less(last, bytes) {
            assert forall|k: int| 0 <= k < all.len() implies !bytes::lex_less(
                #[trigger] all[k],
                last,
            ) by {
                if bytes::lex_less(all[k], last) {
                    if k < rest.len() {
                        bytes::lemma_lex_transitive(all[k], last, bytes);
                        assert(!bytes::lex_less(rest[k], bytes));
                    } else {
                        bytes::lemma_lex_asymmetric(all[k], last);
                    }
                }
            }
            assert(is_least(last, all));
        } else {
            assert forall|k: int| 0 <= k < all.len() implies !bytes::lex_less(
                #[trigger] all[k],
                bytes,
            ) by {
                if k < rest.len() {
                    assert(!bytes::lex_less(rest[k], bytes));
                }
            }
            assert(is_least(bytes, all));
        }
    }
}

/// The outpoint that is smallest when serialized.
fn smallest_outpoint(outpoints: &Vec<OutPoint>) -> (res: OutPoint)
    requires
        outpoints@.len() > 0,
    ensures
        outpoints@.contains(res),
        outpoint_bytes(res) == least(serialized(outpoints@)),
{
    let mut smallest: usize = 0;
    let mut bytes = outpoints[0].serialize();
    let mut i: usize = 1;
    proof {
        if bytes::lex_less(bytes@, bytes@) {
            bytes::lemma_lex_asymmetric(bytes@, bytes@);
        }
    }
    while i < outpoints.len()
        invariant
            smallest < i <= outpoints@.len(),
            bytes@ == outpoint_bytes(outpoints@[smallest as int]),
            forall|j: int|
                0 <= j < i ==> !bytes::lex_less(outpoint_bytes(#[trigger] outpoints@[j]), bytes@),
        decreases outpoints@.len() - i,
    {
        let candidate = outpoints[i].serialize();
        if precedes(candidate.as_slice(), bytes.as_slice()) {
            proof {
                assert forall|j: int| 0 <= j < i + 1 implies !bytes::lex_less(
                    outpoint_bytes(#[trigger] outpoints@[j]),
                    candidate@,
                ) by {
                    if bytes::lex_less(outpoint_bytes(outpoints@[j]), candidate@) {
                        if j < i {
                            bytes::lemma_lex_transitive(
                                outpoint_bytes(outpoints@[j]),
                                candidate@,
                                bytes@,
                            );
                        } else {
                            bytes::lemma_lex_asymmetric(candidate@, candidate@);
                        }
                    }
                }
            }
            smallest = i;
            bytes = candidate;
        }
        i += 1;
    }
    proof {
        let all = serialized(outpoints@);
        assert(all[smallest as int] == bytes@);
        assert(all.contains(bytes@));
        assert(is_least(bytes@, all));
        lemma_least_unique(bytes@, all);
    }
    outpoints[smallest]
}

/// The hash with the tag `BIP0352/Inputs`, over a transaction's inputs.
#[derive(Clone, Copy, Debug, PartialEq, Eq)]
pub struct InputsHash {
    bytes: [u8; 32],
}

impl View for InputsHash {
    type V = Seq<u8>;

    closed spec fn view(&self) -> Seq<u8> {
        self.bytes@
    }
}

impl InputsHash {
    /// Hashes the smallest outpoint and the sum of the inputs' public keys.
    #[allow(non_snake_case)]
    pub fn from_outpoint_and_A_sum(smallest_outpoint: &OutPoint, A_sum: PublicKey) -> (res:
        InputsHash)
        ensures
            res@ == tagged_digest(INPUTS_TAG@, outpoint_bytes(*smallest_outpoint) + A_sum@),
    {
        let mut message = smallest_outpoint.serialize();
        append_bytes(&mut message, &A_sum.serialize());
        let tag = INPUTS_TAG;
        InputsHash { bytes: tagged_hash(&tag, message.as_slice()) }
    }

    /// The 32 bytes of the hash.
    pub fn to_byte_array(self) -> (res: [u8; 32])
        ensures
            res@ == self@,
    {
        self.bytes
    }

    /// The hash as a scalar.
    pub fn to_scalar(self) -> (res: Scalar)
        requires
            bytes::be_value(self@) < secp::curve_order(),
        ensures
            res@ == self@,
    {
        Scalar::from_be_bytes(self.bytes).unwrap()
    }
}

/// The hash with the tag `BIP0352/Label`, over a scan key and a label's number.
#[derive(Clone, Copy, Debug, PartialEq, Eq)]
pub struct LabelHash {
    bytes: [u8; 32],
}

impl View for LabelHash {
    type V = Seq<u8>;

    closed spec fn view(&self) -> Seq<u8> {
        self.bytes@
    }
}

impl LabelHash {
    /// Hashes a secret scan key and the number of a label.
    pub fn from_b_scan_and_m(b_scan: SecretKey, m: u32) -> (res: LabelHash)
        ensures
            res@ == tagged_digest(LABEL_TAG@, b_scan@ + bytes::be_bytes(m as nat, 4)),
    {
        let mut message = copy_bytes(&b_scan.secret_bytes());
        append_bytes(&mut message, &be_four(m));
        let tag = LABEL_TAG;
        LabelHash { bytes: tagged_hash(&tag, message.as_slice()) }
    }

    /// The 32 bytes of the hash.
    pub fn to_byte_array(self) -> (res: [u8; 32])
        ensures
            res@ == self@,
    {
        self.bytes
    }

    /// The hash as a scalar.
    pub fn to_scalar(self) -> (res: Scalar)
        requires
            bytes::be_value(self@) < secp::curve_order(),
        ensures
            res@ == self@,
    {
        Scalar::from_be_bytes(self.bytes).unwrap()
    }
}

/// The hash with the tag `BIP0352/SharedSecret`, over a shared secret and a counter.
#[derive(Clone, Copy, Debug, PartialEq, Eq)]
pub struct SharedSecretHash {
    bytes: [u8; 32],
}

impl View for SharedSecretHash {
    type V = Seq<u8>;

    closed spec fn view(&self) -> Seq<u8> {
        self.bytes@
    }
}

/// The hash of a shared secret and the counter of an output.
pub open spec fn output_digest(secret: Seq<u8>, k: nat) -> Seq<u8> {
    tagged_digest(SHARED_SECRET_TAG@, secret + bytes::be_bytes(k, 4))
}

impl SharedSecretHash {
    /// Hashes a shared secret and the counter of an output.
    pub fn from_ecdh_and_k(ecdh: &PublicKey, k: u32) -> (res: SharedSecretHash)
        ensures
            res@ == output_digest(ecdh@, k as nat),
    {
        let mut message = copy_bytes(&ecdh.serialize());
        append_bytes(&mut message, &be_four(k));
        let tag = SHARED_SECRET_TAG;
        SharedSecretHash { bytes: tagged_hash(&tag, message.as_slice()) }
    }

    /// The 32 bytes of the hash.
    pub fn to_byte_array(self) -> (res: [u8; 32])
        ensures
            res@ == self@,
    {
        self.bytes
    }
}

/// The hash over a transaction's inputs, as a scalar. The hash has to be below the curve order,
/// which all but a negligible part of them are; `checked_input_hash` looks first.
#[allow(non_snake_case)]
pub fn calculate_input_hash(outpoints: &Vec<OutPoint>, A_sum: PublicKey) -> (res: Result<
    Scalar,
    Error,
>)
    requires
        outpoints@.len() > 0 ==> bytes::be_value(input_digest(outpoints@, A_sum@))
            < secp::curve_order(),
    ensures
        match res {
            Ok(scalar) => outpoints@.len() > 0 && scalar@ == input_digest(outpoints@, A_sum@),
            Err(Error::GenericError(message)) => outpoints@.len() == 0 && message@
                == "No outpoints provided"@,
        },
{
    if outpoints.len() == 0 {
        return Err(Error::GenericError(String::from_str("No outpoints provided")));
    }
    let smallest = smallest_outpoint(outpoints);
    Ok(InputsHash::from_outpoint_and_A_sum(&smallest, A_sum).to_scalar())
}

/// The hash over a transaction's inputs, as a scalar: `None` where the hash is not below the curve
/// order.
#[allow(non_snake_case)]
pub fn checked_input_hash(outpoints: &Vec<OutPoint>, A_sum: PublicKey) -> (res: Result<
    Option<Scalar>,
    Error,
>)
    ensures
        match res {
            Ok(Some(scalar)) => outpoints@.len() > 0 && scalar@ == input_digest(
                outpoints@,
                A_sum@,
            ) && bytes::be_value(scalar@) < secp::curve_order(),
            Ok(None) => outpoints@.len() > 0 && bytes::be_value(input_digest(outpoints@, A_sum@))
                >= secp::curve_order(),
            Err(Error::GenericError(message)) => outpoints@.len() == 0 && message@
                == "No outpoints provided"@,
        },
{
    if outpoints.len() > 0 {
        let smallest = smallest_outpoint(outpoints);
        let hash = InputsHash::from_outpoint_and_A_sum(&smallest, A_sum);
        if Scalar::from_be_bytes(hash.to_byte_array()).is_none() {
            return Ok(None);
        }
    }
    match calculate_input_hash(outpoints, A_sum) {
        Ok(scalar) => Ok(Some(scalar)),
        Err(error) => Err(error),
    }
}

/// The tags are the names of the hashes.
pub proof fn law_tags()
    ensures
        INPUTS_TAG@.map_values(|byte: u8| byte as char) == "BIP0352/Inputs"@,
        LABEL_TAG@.map_values(|byte: u8| byte as char) == "BIP0352/Label"@,
        SHARED_SECRET_TAG@.map_values(|byte: u8| byte as char) == "BIP0352/SharedSecret"@,
{
    reveal_strlit("BIP0352/Inputs");
    reveal_strlit("BIP0352/Label");
    reveal_strlit("BIP0352/SharedSecret");
    assert(INPUTS_TAG@.map_values(|byte: u8| byte as char) =~= "BIP0352/Inputs"@);
    assert(LABEL_TAG@.map_values(|byte: u8| byte as char) =~= "BIP0352/Label"@);
    assert(SHARED_SECRET_TAG@.map_values(|byte: u8| byte as char) =~= "BIP0352/SharedSecret"@);
}

/// The digest that an output's key comes from is that of the tag's digest, twice, the secret, and
/// the counter in four bytes, the highest one first.
pub proof fn law_output_digest(secret: Seq<u8>, k: u32)
    ensures
        ({
            let tag = sha256_digest(SHARED_SECRET_TAG@);
            output_digest(secret, k as nat) == sha256_digest(
                tag + tag + secret + seq![
                    (k / 0x100_0000) as u8,
                    (k / 0x1_0000 % 0x100) as u8,
                    (k / 0x100 % 0x100) as u8,
                    (k % 0x100) as u8,
                ],
            )
        }),
{
    let tag = sha256_digest(SHARED_SECRET_TAG@);
    bytes::law_be_four(k);
    assert(tag + tag + (secret + bytes::be_bytes(k as nat, 4)) =~= tag + tag + secret
        + bytes::be_bytes(k as nat, 4));
}

/// The digest of a label is that of the tag's digest, twice, the message, which is the secret scan
/// key and the number of the label in four bytes, the highest one first.
pub proof fn law_label_digest(scan_secret: Seq<u8>, m: u32)
    ensures
        ({
            let tag = sha256_digest(LABEL_TAG@);
            tagged_digest(LABEL_TAG@, scan_secret + bytes::be_bytes(m as nat, 4))
                == sha256_digest(
                tag + tag + scan_secret + seq![
                    (m / 0x100_0000) as u8,
                    (m / 0x1_0000 % 0x100) as u8,
                    (m / 0x100 % 0x100) as u8,
                    (m % 0x100) as u8,
                ],
            )
        }),
{
    let tag = sha256_digest(LABEL_TAG@);
    bytes::law_be_four(m);
    assert(tag + tag + (scan_secret + bytes::be_bytes(m as nat, 4)) =~= tag + tag + scan_secret
        + bytes::be_bytes(m as nat, 4));
}

/// An outpoint is serialized as the transaction's hash, and the position in four bytes, the lowest
/// one first.
pub proof fn law_outpoint_bytes(outpoint: OutPoint)
    ensures
        outpoint_bytes(outpoint) == outpoint.txid@ + seq![
            (outpoint.vout % 0x100) as u8,
            (outpoint.vout / 0x100 % 0x100) as u8,
            (outpoint.vout / 0x1_0000 % 0x100) as u8,
            (outpoint.vout / 0x100_0000) as u8,
        ],
{
    bytes::law_le_four(outpoint.vout);
}

/// The hash over the inputs is that of one of the outpoints and the sum of the keys. No other
/// outpoint stands before that one: where two of them differ, it has the lower byte at the first
/// place where they do.
pub proof fn law_input_digest(outpoints: Seq<OutPoint>, key_sum: Seq<u8>)
    requires
        outpoints.len() > 0,
    ensures
        exists|i: int|
            {
                let tag = sha256_digest(INPUTS_TAG@);
                &&& 0 <= i < outpoints.len()
                &&& input_digest(outpoints, key_sum) == sha256_digest(
                    tag + tag + outpoint_bytes(#[trigger] outpoints[i]) + key_sum,
                )
                &&& forall|j: int|
                    0 <= j < outpoints.len() ==> outpoint_bytes(#[trigger] outpoints[j])
                        == outpoint_bytes(outpoints[i]) || exists|k: int|
                        {
                            &&& 0 <= k < 36
                            &&& #[trigger] outpoint_bytes(outpoints[i])[k] < outpoint_bytes(
                                outpoints[j],
                            )[k]
                            &&& outpoint_bytes(outpoints[i]).take(k) == outpoint_bytes(
                                outpoints[j],
                            ).take(k)
                        }
            },
{
    let all = serialized(outpoints);
    lemma_least_exists(all);
    let bytes = least(all);
    let i = choose|i: int| 0 <= i < all.len() && all[i] == bytes;
    let tag = sha256_digest(INPUTS_TAG@);
    assert(tag + tag + (bytes + key_sum) =~= tag + tag + bytes + key_sum);
    assert(bytes == outpoint_bytes(outpoints[i]));
    assert forall|j: int| 0 <= j < outpoints.len() && outpoint_bytes(#[trigger] outpoints[j])
        != outpoint_bytes(outpoints[i]) implies exists|k: int|
        {
            &&& 0 <= k < 36
            &&& #[trigger] outpoint_bytes(outpoints[i])[k] < outpoint_bytes(outpoints[j])[k]
            &&& outpoint_bytes(outpoints[i]).take(k) == outpoint_bytes(outpoints[j]).take(k)
        } by {
        let other = outpoint_bytes(outpoints[j]);
        assert(all[j] == other);
        bytes::lemma_lex_total(bytes, other);
        let k = choose|k: int| #[trigger] bytes::first_difference(bytes, other, k);
        bytes::lemma_le_bytes_len(outpoints[i].vout as nat, 4);
        bytes::lemma_le_bytes_len(outpoints[j].vout as nat, 4);
        assert(bytes.len() == 36 && other.len() == 36);
        assert(bytes.take(k) =~= other.take(k));
        assert(outpoint_bytes(outpoints[i])[k] < other[k]);
    }
}

} // verus!
