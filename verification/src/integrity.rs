//! Integrity and signing of finished artifacts: the content checksum is
//! the lowercase-hex SHA-256 of the artifact bytes, and a signature is the
//! base64 of a keyed HMAC-SHA256 over that checksum text, so the MAC's
//! input size is constant however large the artifact is.

use vstd::prelude::*;
use crate::b64::{b64_encode, base64_of};
use crate::numtext::{hex_bytes, lemma_hex_bytes_ascii, to_hex};
use crate::strings::{ascii_chars_of, string_from_ascii};
use vstd::string::StringSliceAdditionalSpecFns;
use sha2::Digest;
use hmac::Mac;

verus! {

/// The SHA-256 digest of a byte string, as the sha2 crate computes it.
pub uninterp spec fn sha256_of(data: Seq<u8>) -> Seq<u8>;

/// The HMAC-SHA256 tag over `msg` under `key`, as the hmac crate
/// computes it.
pub uninterp spec fn hmac_sha256_of(key: Seq<u8>, msg: Seq<u8>) -> Seq<u8>;

/// Relies on sha2's Sha256: `digest` computes the 32-byte SHA-256 of its
/// input, a function of the bytes alone.
#[verifier::external_body]
fn sha256(data: &[u8]) -> (r: Vec<u8>)
    ensures
        r@ == sha256_of(data@),
        r@.len() == 32,
{
    sha2::Sha256::digest(data).to_vec()
}

/// Relies on hmac's Hmac<Sha256>: keys of any length are accepted and the
/// 32-byte tag is a function of key and message alone.
#[verifier::external_body]
fn hmac_sha256(key: &[u8], msg: &[u8]) -> (r: Vec<u8>)
    ensures
        r@ == hmac_sha256_of(key@, msg@),
        r@.len() == 32,
{
    let mut mac = <hmac::Hmac<sha2::Sha256> as hmac::KeyInit>::new_from_slice(key)
        .expect("HMAC accepts keys of any length");
    mac.update(msg);
    mac.finalize().into_bytes().to_vec()
}

/// The content checksum of an artifact: its SHA-256, written as lowercase
/// hex text.
pub open spec fn digest_spec(data: Seq<u8>) -> Seq<char> {
    ascii_chars_of(hex_bytes(sha256_of(data)))
}

/// The signature of an artifact under a key: base64 of the HMAC-SHA256
/// tag computed over the artifact's checksum text.
pub open spec fn sign_spec(data: Seq<u8>, key: Seq<u8>) -> Seq<char> {
    base64_of(hmac_sha256_of(key, hex_bytes(sha256_of(data))))
}

/// Compute the content checksum of artifact bytes: 64 hex characters.
pub fn digest(data: &[u8]) -> (r: String)
    ensures
        r@ == digest_spec(data@),
        r@.len() == 64,
{
    let h = sha256(data);
    let hx = to_hex(h.as_slice());
    proof {
        lemma_hex_bytes_ascii(h@);
    }
    string_from_ascii(hx)
}

/// Sign artifact bytes with a key.
pub fn sign(data: &[u8], key: &str) -> (r: String)
    ensures
        r@ == sign_spec(data@, key.spec_bytes()),
{
    let h = sha256(data);
    let hx = to_hex(h.as_slice());
    let tag = hmac_sha256(key.as_bytes(), hx.as_slice());
    b64_encode(tag.as_slice())
}

/// The checksum is deterministic: it depends on the artifact bytes alone,
/// so repeated digests of the same bytes agree.
pub proof fn lemma_digest_deterministic(x: Seq<u8>, y: Seq<u8>)
    requires
        x == y,
    ensures
        digest_spec(x) == digest_spec(y),
{
}

/// Signing is deterministic: for a fixed artifact and key the signature
/// is always the same.
pub proof fn lemma_sign_deterministic(x: Seq<u8>, y: Seq<u8>, kx: Seq<u8>, ky: Seq<u8>)
    requires
        x == y,
        kx == ky,
    ensures
        sign_spec(x, kx) == sign_spec(y, ky),
{
}

} // verus!
