//! ECDH shares and silent payment addresses, as the fields hold them.

use vstd::prelude::*;
use crate::secp;
use crate::bip375::error::{EcdhShareError, Error};
use crate::bytes::{append_bytes, copy_bytes};
use crate::psbt::DleqProof;
use crate::secp::PublicKey;

verus! {

/// An ECDH share for the silent payment outputs to a scan key.
#[derive(Clone, Copy, Debug, PartialEq, Eq)]
pub struct EcdhShareData {
    /// The scan key that the share is for.
    pub scan_key: PublicKey,
    /// The share.
    pub share: PublicKey,
    /// The proof that the share belongs to an input's key.
    pub dleq_proof: Option<DleqProof>,
}

/// Two keys, in 66 bytes.
pub open spec fn key_pair(first: Seq<u8>, second: Seq<u8>) -> Seq<u8> {
    first + second
}

/// The encoding of the first of two keys.
pub open spec fn first_key(bytes: Seq<u8>) -> Seq<u8> {
    bytes.subrange(0, 33)
}

/// The encoding of the second of two keys.
pub open spec fn second_key(bytes: Seq<u8>) -> Seq<u8> {
    bytes.subrange(33, 66)
}

/// What a byte string holds as share data: a scan key and a share.
pub open spec fn parsed_share(bytes: Seq<u8>) -> Result<(Seq<u8>, Seq<u8>), Error> {
    if bytes.len() != 66 {
        Err(Error::InvalidEcdhShare(EcdhShareError::Length(bytes.len() as usize)))
    } else if !secp::valid_point(first_key(bytes)) || !secp::valid_point(second_key(bytes)) {
        Err(Error::InvalidEcdhShare(EcdhShareError::MalformedKey))
    } else {
        Ok((first_key(bytes), second_key(bytes)))
    }
}

/// Reading serialized share data gives back the keys that were written.
pub proof fn law_share_read_after_write(scan_key: PublicKey, share: PublicKey)
    requires
        secp::valid_point(scan_key@),
        secp::valid_point(share@),
    ensures
        parsed_share(key_pair(scan_key@, share@)) == Ok::<_, Error>((scan_key@, share@)),
{
    secp::lemma_key_len(scan_key);
    secp::lemma_key_len(share);
    assert(first_key(key_pair(scan_key@, share@)) =~= scan_key@);
    assert(second_key(key_pair(scan_key@, share@)) =~= share@);
}

/// Writing what was read gives back the byte string.
pub proof fn law_share_write_after_read(bytes: Seq<u8>)
    requires
        parsed_share(bytes) is Ok,
    ensures
        key_pair(parsed_share(bytes)->Ok_0.0, parsed_share(bytes)->Ok_0.1) == bytes,
{
    assert(first_key(bytes) + second_key(bytes) =~= bytes);
}

impl EcdhShareData {
    /// A share with its proof, if there is one.
    pub fn new(scan_key: PublicKey, share: PublicKey, dleq_proof: Option<DleqProof>) -> (res: Self)
        ensures
            res == (EcdhShareData { scan_key, share, dleq_proof }),
    {
        EcdhShareData { scan_key, share, dleq_proof }
    }

    /// A share without a proof.
    pub fn without_proof(scan_key: PublicKey, share: PublicKey) -> (res: Self)
        ensures
            res == (EcdhShareData { scan_key, share, dleq_proof: None }),
    {
        EcdhShareData::new(scan_key, share, None)
    }

    /// Serializes the scan key and the share.
    pub fn to_bytes(&self) -> (res: Vec<u8>)
        ensures
            res@ == key_pair(self.scan_key@, self.share@),
    {
        let mut res = copy_bytes(&self.scan_key.serialize());
        append_bytes(&mut res, &self.share.serialize());
        res
    }

    /// Reads a scan key and a share.
    pub fn from_bytes(bytes: &[u8]) -> (res: Result<Self, Error>)
        ensures
            match res {
                Ok(data) => parsed_share(bytes@) == Ok::<_, Error>((data.scan_key@, data.share@))
                    && data.dleq_proof is None,
                Err(error) => parsed_share(bytes@) == Err::<(Seq<u8>, Seq<u8>), _>(error),
            },
    {
        if bytes.len() != 66 {
            return Err(Error::InvalidEcdhShare(EcdhShareError::Length(bytes.len())));
        }
        let Some(scan_key) = PublicKey::read_at(bytes, 0) else {
            return Err(Error::InvalidEcdhShare(EcdhShareError::MalformedKey));
        };
        let Some(share) = PublicKey::read_at(bytes, 33) else {
            return Err(Error::InvalidEcdhShare(EcdhShareError::MalformedKey));
        };
        Ok(EcdhShareData { scan_key, share, dleq_proof: None })
    }
}

/// Share data is read where it has 66 bytes, and both halves of it are points; these are the scan
/// key and the share, in that order. Otherwise the error says which of the two does not hold.
pub proof fn law_parsed_share(bytes: Seq<u8>)
    ensures
        bytes.len() != 66 ==> parsed_share(bytes) == Err::<(Seq<u8>, Seq<u8>), _>(
            Error::InvalidEcdhShare(EcdhShareError::Length(bytes.len() as usize)),
        ),
        bytes.len() == 66 ==> {
            let points = secp::valid_point(bytes.take(33)) && secp::valid_point(bytes.skip(33));
            parsed_share(bytes) == (if points {
                Ok((bytes.take(33), bytes.skip(33)))
            } else {
                Err(Error::InvalidEcdhShare(EcdhShareError::MalformedKey))
            })
        },
{
    if bytes.len() == 66 {
        assert(bytes.take(33) =~= bytes.subrange(0, 33));
        assert(bytes.skip(33) =~= bytes.subrange(33, 66));
    }
}

/// Two keys stand one behind the other, and each is found where it stands.
pub proof fn law_key_pair(first: Seq<u8>, second: Seq<u8>)
    requires
        first.len() == 33,
        second.len() == 33,
    ensures
        key_pair(first, second) == first + second,
        first_key(first + second) == first,
        second_key(first + second) == second,
{
    assert(first_key(first + second) =~= first);
    assert(second_key(first + second) =~= second);
}

} // verus!
