//! Peer identifiers of Ed448 keys.

use vstd::prelude::*;

use crate::bytes::append_bytes;
use crate::codec::{base58_encode, base58_text, sha256, sha256_of};

verus! {

/// A key of the Ed448 type as it is encoded for hashing: the key's type, then its
/// length in one byte, then its bytes.
pub open spec fn key_encoding(pubkey: Seq<u8>) -> Seq<u8> {
    seq![0x08u8, 0x04, 0x12, (pubkey.len() % 256) as u8] + pubkey
}

/// The multihash of a key: the code of SHA-256, the digest's length, the digest.
pub open spec fn key_multihash(pubkey: Seq<u8>) -> Seq<u8> {
    seq![0x12u8, 0x20] + sha256_of(key_encoding(pubkey))
}

/// The peer identifier of an Ed448 key, as bytes.
pub fn ed448_multihash(pubkey: &[u8]) -> (r: Vec<u8>)
    ensures
        r@ == key_multihash(pubkey@),
        r@.len() == 34,
{
    let len: u8 = (pubkey.len() % 256) as u8;
    let mut proto: Vec<u8> = vec![0x08, 0x04, 0x12, len];
    append_bytes(&mut proto, pubkey);
    assert(proto@ =~= key_encoding(pubkey@));
    let hash = sha256(proto.as_slice());
    let mut multihash: Vec<u8> = vec![0x12, 0x20];
    append_bytes(&mut multihash, hash.as_slice());
    assert(multihash@ =~= key_multihash(pubkey@));
    multihash
}

/// The peer identifier of an Ed448 key, as text.
pub fn ed448_pubkey_to_peer_id_string(pubkey: &[u8]) -> (r: String)
    ensures
        r@ == base58_text(key_multihash(pubkey@)),
{
    base58_encode(ed448_multihash(pubkey).as_slice())
}

} // verus!
