//! The hash functions that transaction identifiers, signature hashes and
//! addresses are built from.

use vstd::prelude::*;

verus! {

/// The SHA-256 digest of a byte string.
pub uninterp spec fn sha256_of(data: Seq<u8>) -> Seq<u8>;

/// The RIPEMD-160 digest of a byte string.
pub uninterp spec fn ripemd160_of(data: Seq<u8>) -> Seq<u8>;

/// The HMAC-SHA-512 code of a message under a key.
pub uninterp spec fn hmac_sha512_of(key: Seq<u8>, data: Seq<u8>) -> Seq<u8>;

/// SHA-256 applied twice.
pub open spec fn double_sha256_of(data: Seq<u8>) -> Seq<u8> {
    sha256_of(sha256_of(data))
}

/// RIPEMD-160 of the SHA-256 digest: the hash that a pay-to-witness-key
/// address holds of a public key.
pub open spec fn hash160_of(data: Seq<u8>) -> Seq<u8> {
    ripemd160_of(sha256_of(data))
}

/// Calls `sha2::Sha256::digest`, the one-shot form of the `sha2` hasher. The
/// contract gives the digest the name `sha256_of`: it depends on the input
/// bytes alone. Nothing else is claimed of it; its length of 32 bytes is the
/// result's type.
#[verifier::external_body]
pub(crate) fn sha256(data: &[u8]) -> (digest: [u8; 32])
    ensures
        digest@ == sha256_of(data@),
{
    <sha2::Sha256 as sha2::Digest>::digest(data).into()
}

/// Calls `ripemd::Ripemd160::digest`, the one-shot form of the `ripemd`
/// hasher. The contract gives the digest the name `ripemd160_of`: it depends
/// on the input bytes alone. Its length of 20 bytes is the result's type.
#[verifier::external_body]
pub(crate) fn ripemd160(data: &[u8]) -> (digest: [u8; 20])
    ensures
        digest@ == ripemd160_of(data@),
{
    <ripemd::Ripemd160 as ripemd::Digest>::digest(data).into()
}

/// Calls `Mac::new_from_slice`, `update` and `finalize` of `hmac` on
/// `Hmac<Sha512>`: the code of one message under one key. A key of any
/// length is accepted. The contract gives the code the name
/// `hmac_sha512_of`: it depends on the key and the message alone. Its length
/// of 64 bytes is the result's type.
#[verifier::external_body]
pub(crate) fn hmac_sha512(key: &[u8], data: &[u8]) -> (code: [u8; 64])
    ensures
        code@ == hmac_sha512_of(key@, data@),
{
    let mut mac = <hmac::Hmac<sha2::Sha512> as hmac::Mac>::new_from_slice(key)
        .expect("a key of any length");
    hmac::Mac::update(&mut mac, data);
    hmac::Mac::finalize(mac).into_bytes().into()
}

/// SHA-256 applied twice, as transaction identifiers and signature hashes
/// are computed.
pub fn double_sha256(data: &[u8]) -> (digest: [u8; 32])
    ensures
        digest@ == double_sha256_of(data@),
{
    let first: [u8; 32] = sha256(data);
    sha256(first.as_slice())
}

/// The 20-byte hash of a public key that a pay-to-witness-key address holds.
pub fn hash160(data: &[u8]) -> (digest: [u8; 20])
    ensures
        digest@ == hash160_of(data@),
{
    let first: [u8; 32] = sha256(data);
    ripemd160(first.as_slice())
}

} // verus!
