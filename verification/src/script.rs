//! The script templates that silent payments deal with.

use vstd::prelude::*;
use crate::bytes::append_bytes;

verus! {

/// A script that pays to the hash of a witness public key: version 0 and a push of 20 bytes.
pub open spec fn p2wpkh(script: Seq<u8>) -> bool {
    script.len() == 22 && script[0] == 0x00 && script[1] == 0x14
}

/// A script that pays to a taproot output key: version 1 and a push of 32 bytes.
pub open spec fn p2tr(script: Seq<u8>) -> bool {
    script.len() == 34 && script[0] == 0x51 && script[1] == 0x20
}

/// A script that pays to the hash of a public key.
pub open spec fn p2pkh(script: Seq<u8>) -> bool {
    &&& script.len() == 25
    &&& script[0] == 0x76
    &&& script[1] == 0xa9
    &&& script[2] == 0x14
    &&& script[23] == 0x88
    &&& script[24] == 0xac
}

/// A script that pays to the hash of a script.
pub open spec fn p2sh(script: Seq<u8>) -> bool {
    script.len() == 23 && script[0] == 0xa9 && script[1] == 0x14 && script[22] == 0x87
}

/// The script that pays to a taproot output key.
pub open spec fn p2tr_script(output_key: Seq<u8>) -> Seq<u8> {
    seq![0x51u8, 0x20u8] + output_key
}

/// Whether a script pays to the hash of a witness public key.
pub fn is_p2wpkh(script: &[u8]) -> (res: bool)
    ensures
        res == p2wpkh(script@),
{
    script.len() == 22 && script[0] == 0x00 && script[1] == 0x14
}

/// Whether a script pays to a taproot output key.
pub fn is_p2tr(script: &[u8]) -> (res: bool)
    ensures
        res == p2tr(script@),
{
    script.len() == 34 && script[0] == 0x51 && script[1] == 0x20
}

/// Whether a script pays to the hash of a public key.
pub fn is_p2pkh(script: &[u8]) -> (res: bool)
    ensures
        res == p2pkh(script@),
{
    script.len() == 25 && script[0] == 0x76 && script[1] == 0xa9 && script[2] == 0x14 && script[23]
        == 0x88 && script[24] == 0xac
}

/// Whether a script pays to the hash of a script.
pub fn is_p2sh(script: &[u8]) -> (res: bool)
    ensures
        res == p2sh(script@),
{
    script.len() == 23 && script[0] == 0xa9 && script[1] == 0x14 && script[22] == 0x87
}

/// The script that pays to a taproot output key, which is taken as it is.
pub fn new_p2tr_tweaked(output_key: &[u8; 32]) -> (res: Vec<u8>)
    ensures
        res@ == p2tr_script(output_key@),
        p2tr(res@),
{
    let mut res: Vec<u8> = Vec::with_capacity(34);
    res.push(0x51);
    res.push(0x20);
    append_bytes(&mut res, output_key);
    assert(res@ =~= p2tr_script(output_key@));
    res
}

/// A script pays to the hash of a witness public key, to a taproot key, to the hash of a public key
/// or to the hash of a script exactly where it is the opcodes of that kind around 20, 32, 20 or 20
/// bytes.
pub proof fn law_templates(script: Seq<u8>)
    ensures
        p2wpkh(script) <==> exists|hash: Seq<u8>|
            hash.len() == 20 && script == seq![0x00u8, 0x14u8] + hash,
        p2tr(script) <==> exists|key: Seq<u8>|
            key.len() == 32 && script == #[trigger] p2tr_script(key),
        p2pkh(script) <==> exists|hash: Seq<u8>|
            hash.len() == 20 && script == seq![0x76u8, 0xa9u8, 0x14u8] + hash + seq![
                0x88u8,
                0xacu8,
            ],
        p2sh(script) <==> exists|hash: Seq<u8>|
            hash.len() == 20 && script == seq![0xa9u8, 0x14u8] + hash + seq![0x87u8],
{
    if p2wpkh(script) {
        assert(script =~= seq![0x00u8, 0x14u8] + script.subrange(2, 22));
    }
    if p2tr(script) {
        assert(script =~= p2tr_script(script.subrange(2, 34)));
    }
    if p2pkh(script) {
        assert(script =~= seq![0x76u8, 0xa9u8, 0x14u8] + script.subrange(3, 23) + seq![
            0x88u8,
            0xacu8,
        ]);
    }
    if p2sh(script) {
        assert(script =~= seq![0xa9u8, 0x14u8] + script.subrange(2, 22) + seq![0x87u8]);
    }
}

/// The script that pays to a taproot key is the opcode for version 1, a push of 32 bytes, and the
/// key.
pub proof fn law_p2tr_script(key: Seq<u8>)
    ensures
        p2tr_script(key) == seq![81u8, 32u8] + key,
{
}

} // verus!
