//! The Ed25519, SHA-256 and hex calls that Vine forwarding relies on.

use vstd::prelude::*;
use vstd::utf8::encode_utf8;

use ed25519_dalek::Verifier;
use sha2::Digest;

verus! {

/// Whether 32 bytes are the compressed form of a point of the Ed25519 curve,
/// that is, whether `ed25519_dalek::VerifyingKey::from_bytes` accepts them.
pub uninterp spec fn ed25519_point_decompresses(bytes: Seq<u8>) -> bool;

/// Whether `ed25519_dalek::VerifyingKey::verify` accepts `signature` on
/// `message` under the public key `key`.
pub uninterp spec fn ed25519_signature_accepted(
    key: Seq<u8>,
    message: Seq<u8>,
    signature: Seq<u8>,
) -> bool;

/// The compressed public key that `ed25519_dalek::SigningKey::from_bytes`
/// derives from a 32-byte seed.
pub uninterp spec fn ed25519_public_key_of_seed(seed: Seq<u8>) -> Seq<u8>;

/// The SHA-256 digest of `data`, as `sha2::Sha256::digest` computes it.
pub uninterp spec fn sha256_digest(data: Seq<u8>) -> Seq<u8>;

/// The value of one hex digit, either case, as the `hex` crate reads it.
pub open spec fn hex_digit_value(c: u8) -> Option<u8> {
    if 0x30 <= c <= 0x39 {
        Some((c - 0x30) as u8)
    } else if 0x41 <= c <= 0x46 {
        Some((c - 0x41 + 10) as u8)
    } else if 0x61 <= c <= 0x66 {
        Some((c - 0x61 + 10) as u8)
    } else {
        None
    }
}

/// The bytes that a hex string spells, two digits a byte, the high digit
/// first; nothing for an odd length or a character that is not a hex digit.
pub open spec fn hex_decoded(s: Seq<u8>) -> Option<Seq<u8>> {
    if s.len() % 2 != 0 || exists|i: int| 0 <= i < s.len() && #[trigger] hex_digit_value(s[i]) is None {
        None
    } else {
        Some(
            Seq::new(
                s.len() / 2,
                |i: int|
                    (hex_digit_value(s[2 * i]).unwrap() * 16 + hex_digit_value(s[2 * i + 1]).unwrap()) as u8,
            ),
        )
    }
}

/// `ed25519_dalek::VerifyingKey::from_bytes`: whether the bytes decompress to
/// a curve point. Claims only that the answer is the named predicate.
#[verifier::external_body]
pub(crate) fn ed25519_key_decompresses(bytes: &[u8]) -> (ok: bool)
    requires
        bytes@.len() == 32,
    ensures
        ok == ed25519_point_decompresses(bytes@),
{
    match <[u8; 32]>::try_from(bytes) {
        Ok(arr) => ed25519_dalek::VerifyingKey::from_bytes(&arr).is_ok(),
        Err(_) => false,
    }
}

/// `ed25519_dalek::VerifyingKey::verify` (through `Verifier`): whether the
/// 64-byte signature is valid for `message` under the 32-byte key. Claims
/// only that the answer is the named predicate of the three byte strings.
#[verifier::external_body]
pub(crate) fn ed25519_verify(key: &[u8], message: &[u8], signature: &[u8]) -> (ok: bool)
    requires
        key@.len() == 32,
        signature@.len() == 64,
        ed25519_point_decompresses(key@),
    ensures
        ok == ed25519_signature_accepted(key@, message@, signature@),
{
    let key: [u8; 32] = match <[u8; 32]>::try_from(key) {
        Ok(k) => k,
        Err(_) => return false,
    };
    let sig: [u8; 64] = match <[u8; 64]>::try_from(signature) {
        Ok(s) => s,
        Err(_) => return false,
    };
    match ed25519_dalek::VerifyingKey::from_bytes(&key) {
        Ok(k) => k.verify(message, &ed25519_dalek::Signature::from_bytes(&sig)).is_ok(),
        Err(_) => false,
    }
}

/// `ed25519_dalek::SigningKey::from_bytes(seed).verifying_key().to_bytes()`:
/// the public key of a 32-byte seed. Claims that it is 32 bytes, the named
/// function of the seed, and a point that decompresses, which the crate keeps
/// as an invariant of every `VerifyingKey` it builds.
#[verifier::external_body]
pub(crate) fn ed25519_public_key_from_seed(seed: &[u8]) -> (pk: Vec<u8>)
    requires
        seed@.len() == 32,
    ensures
        pk@ == ed25519_public_key_of_seed(seed@),
        pk@.len() == 32,
        ed25519_point_decompresses(pk@),
{
    let seed: [u8; 32] = match <[u8; 32]>::try_from(seed) {
        Ok(s) => s,
        Err(_) => [0u8; 32],
    };
    ed25519_dalek::SigningKey::from_bytes(&seed).verifying_key().to_bytes().to_vec()
}

/// `sha2::Sha256::digest`: the 32-byte SHA-256 digest of `data`. Claims
/// only its length and that it is the named function of the input.
#[verifier::external_body]
pub(crate) fn sha256(data: &[u8]) -> (d: Vec<u8>)
    ensures
        d@ == sha256_digest(data@),
        d@.len() == 32,
{
    sha2::Sha256::digest(data).to_vec()
}

/// `hex::decode`: the bytes that a hex string spells, or nothing when it has
/// an odd length or a character that is not a hex digit.
#[verifier::external_body]
pub(crate) fn hex_decode(s: &str) -> (r: Option<Vec<u8>>)
    ensures
        r is Some <==> hex_decoded(encode_utf8(s@)) is Some,
        r matches Some(v) ==> hex_decoded(encode_utf8(s@)) == Some(v@),
{
    hex::decode(s).ok()
}

} // verus!
