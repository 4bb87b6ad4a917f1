//! The calls into the cryptographic and identifier crates, each with the
//! contract that the crate's source and documentation give it.
use hmac::{Hmac, Mac};
use sha2::{Digest, Sha256};
use vstd::prelude::*;

verus! {

/// HMAC-SHA256 of `message` under `key`, as computed by `hmac::Hmac<sha2::Sha256>`.
pub uninterp spec fn hmac_sha256(key: Seq<u8>, message: Seq<u8>) -> Seq<u8>;

/// SHA-256 digest of `data`, as computed by `sha2::Sha256`.
pub uninterp spec fn sha256(data: Seq<u8>) -> Seq<u8>;

/// Calls `Hmac::<Sha256>::new_from_slice`, `Mac::update` and `Mac::finalize`.
/// Trusted: the tag is HMAC-SHA256 of `message` under `key` and is 32 bytes
/// long (`new_from_slice` accepts a key of any length).
#[verifier::external_body]
pub(crate) fn hmac_sha256_tag(key: &[u8], message: &[u8]) -> (tag: Vec<u8>)
    ensures
        tag@ == hmac_sha256(key@, message@),
        tag@.len() == 32,
{
    let mut mac = <Hmac<Sha256> as Mac>::new_from_slice(key).unwrap();
    mac.update(message);
    mac.finalize().into_bytes().to_vec()
}

/// Calls `Hmac::<Sha256>::new_from_slice`, `Mac::update` and `Mac::verify_slice`.
/// Trusted: `verify_slice` succeeds exactly when `tag` has the length of the
/// MAC output and equals the tag of `message` under `key`.
#[verifier::external_body]
pub(crate) fn hmac_sha256_verify(key: &[u8], message: &[u8], tag: &[u8]) -> (valid: bool)
    ensures
        valid == (tag@ == hmac_sha256(key@, message@) && tag@.len() == 32),
{
    let mut mac = <Hmac<Sha256> as Mac>::new_from_slice(key).unwrap();
    mac.update(message);
    mac.verify_slice(tag).is_ok()
}

/// Calls `Sha256::new`, `Digest::update` and `Digest::finalize`.
/// Trusted: the digest is SHA-256 of `data` and is 32 bytes long.
#[verifier::external_body]
pub(crate) fn sha256_digest(data: &[u8]) -> (digest: Vec<u8>)
    ensures
        digest@ == sha256(data@),
        digest@.len() == 32,
{
    let mut hasher = Sha256::new();
    hasher.update(data);
    hasher.finalize().to_vec()
}

/// Calls `uuid::Uuid::new_v4` and returns the identifier as the 128-bit
/// number whose big-endian bytes are the identifier's bytes. Nothing is
/// promised of the value: it is random.
#[verifier::external_body]
pub(crate) fn new_operation_id() -> (id: u128) {
    uuid::Uuid::new_v4().as_u128()
}

} // verus!
