//! Sha-256 and HMAC-SHA-256 digests, taken from the `sha2` and `hmac`
//! crates behind named results.
//!
//! A digest's value is far too long to state; the contracts name it
//! (`sha256_of`, `hmac_sha256_of`) and everything downstream speaks of the
//! name. Both functions depend on their byte arguments alone.

use vstd::prelude::*;

use crate::data::{FixedBytes32, HashVal};

verus! {

/// The Sha-256 digest of a byte string: 32 bytes, a function of the input
/// alone.
pub uninterp spec fn sha256_of(data: Seq<u8>) -> Seq<u8>;

/// The HMAC-SHA-256 of a message under a key of any length: 32 bytes, a
/// function of the two arguments alone.
pub uninterp spec fn hmac_sha256_of(key: Seq<u8>, msg: Seq<u8>) -> Seq<u8>;

/// Relies on `sha2::Sha256::digest`: the digest is a pure function of the
/// input bytes and is always 32 bytes long.
#[verifier::external_body]
pub fn sha256(data: &[u8]) -> (r: HashVal)
    ensures
        r@ == sha256_of(data@),
{
    let out = <sha2::Sha256 as sha2::Digest>::digest(data);
    let mut b = [0u8; 32];
    b.copy_from_slice(&out);
    FixedBytes32 { b }
}

/// Relies on `hmac::Hmac` over `sha2::Sha256`: the tag is a pure function
/// of key and message, 32 bytes long, and keys of any length are accepted
/// (`new_from_slice` in the `hmac` crate never fails).
#[verifier::external_body]
pub fn hmac_sha256(key: &[u8], msg: &[u8]) -> (r: HashVal)
    ensures
        r@ == hmac_sha256_of(key@, msg@),
{
    let mut mac = <hmac::Hmac<sha2::Sha256> as hmac::KeyInit>::new_from_slice(key)
        .expect("HMAC accepts keys of any length");
    hmac::Mac::update(&mut mac, msg);
    let out = hmac::Mac::finalize(mac).into_bytes();
    let mut b = [0u8; 32];
    b.copy_from_slice(&out);
    FixedBytes32 { b }
}

} // verus!
