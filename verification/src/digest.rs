//! Content fingerprints: the SHA-1 digest of a payload, written as forty
//! lowercase hexadecimal digits.

use crate::error::Error;
use crypto::digest::Digest;
use crypto::sha1::Sha1;
use vstd::prelude::*;

verus! {

/// Payloads of this many bytes or more are not hashed: the digest counts its
/// input in bits, in 64 bits.
pub const HASH_INPUT_LIMIT: u64 = 0x2000_0000_0000_0000;

/// The number of bytes of a fingerprint.
pub const HASH_LEN: usize = 40;

/// The SHA-1 digest of `data` in lowercase hexadecimal, as computed by the
/// `crypto` crate. The library does not define it; it only relies on it being
/// a function of the data.
pub uninterp spec fn sha1_hex(data: Seq<u8>) -> Seq<u8>;

/// Whether `b` is one of the digits `0` to `9` or `a` to `f`.
pub open spec fn is_lower_hex(b: u8) -> bool {
    (0x30 <= b && b <= 0x39) || (0x61 <= b && b <= 0x66)
}

/// Whether `h` has the form of a fingerprint: forty lowercase hexadecimal
/// digits.
pub open spec fn is_hash(h: Seq<u8>) -> bool {
    h.len() == HASH_LEN && forall|i: int| 0 <= i < h.len() ==> is_lower_hex(#[trigger] h[i])
}

/// Forty digits `0`.
pub open spec fn zero_hash() -> Seq<u8> {
    Seq::new(HASH_LEN as nat, |i: int| 0x30u8)
}

/// The fingerprint of `payload`: its SHA-1 digest in lowercase
/// hexadecimal. It has forty digits for every payload: should the digest
/// of a payload not be of that form, which is so of none that can be
/// hashed, forty zeros stand in for it.
pub open spec fn fingerprint_of(payload: Seq<u8>) -> Seq<u8> {
    if is_hash(sha1_hex(payload)) {
        sha1_hex(payload)
    } else {
        zero_hash()
    }
}

/// Every fingerprint has forty lowercase hexadecimal digits.
pub proof fn lemma_fingerprint_is_hash(payload: Seq<u8>)
    ensures
        is_hash(fingerprint_of(payload)),
{
}

/// Calls `Sha1::new`, `Digest::input` and `Digest::result_str` of the
/// `crypto` crate on `data`. Trusted: the result is the digest named
/// `sha1_hex`, and it is written as forty lowercase hexadecimal digits
/// (twenty bytes, two digits each). `input` panics on 2^61 bytes or more,
/// which the precondition excludes.
#[verifier::external_body]
fn sha1_hex_digest(data: &[u8]) -> (hex: Vec<u8>)
    requires
        data@.len() < HASH_INPUT_LIMIT,
    ensures
        hex@ == sha1_hex(data@),
        is_hash(hex@),
{
    let mut hasher = Sha1::new();
    hasher.input(data);
    hasher.result_str().into_bytes()
}

/// Whether `payload` is short enough to be hashed.
pub open spec fn hashable(payload: Seq<u8>) -> bool {
    payload.len() < HASH_INPUT_LIMIT
}

/// The fingerprint of `payload`, or `ObjectTooLarge` if the payload is too
/// long to be hashed.
pub fn fingerprint(payload: &[u8]) -> (key: Result<Vec<u8>, Error>)
    ensures
        hashable(payload@) ==> {
            &&& key is Ok
            &&& key->Ok_0@ == fingerprint_of(payload@)
            &&& is_hash(key->Ok_0@)
        },
        !hashable(payload@) ==> key == Err::<Vec<u8>, Error>(Error::ObjectTooLarge),
{
    if payload.len() as u64 >= HASH_INPUT_LIMIT {
        return Err(Error::ObjectTooLarge);
    }
    Ok(sha1_hex_digest(payload))
}

} // verus!
