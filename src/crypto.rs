use vstd::prelude::*;

verus! {

/// HMAC-SHA512 of `msg` under `key` (RFC 2104).
pub uninterp spec fn hmac_sha512_of(key: Seq<u8>, msg: Seq<u8>) -> Seq<u8>;

/// The first 32 bytes of HKDF-Expand (RFC 5869) over SHA-512 from the
/// pseudorandom key `prk`, with empty info.
pub uninterp spec fn hkdf_expand32_of(prk: Seq<u8>) -> Seq<u8>;

/// HKDF-Extract with salt `salt` and input keying material `ikm`.
/// Relies on `ring::hmac::sign` with `HMAC_SHA512`: HKDF-Extract is HMAC keyed
/// by the salt (as `ring::hkdf::Salt::extract` computes it), and its tag is the
/// 64-byte digest. A key of at most one block (128 bytes) is used as it is.
#[verifier::external_body]
pub(crate) fn hkdf_extract(salt: &[u8], ikm: &[u8]) -> (r: Vec<u8>)
    requires
        salt@.len() <= 128,
    ensures
        r@ == hmac_sha512_of(salt@, ikm@),
        r@.len() == 64,
{
    let key = ring::hmac::Key::new(ring::hmac::HMAC_SHA512, salt);
    ring::hmac::sign(&key, ikm).as_ref().to_vec()
}

/// One 32-byte block of HKDF-Expand with empty info.
/// Relies on `ring::hkdf::Prk::new_less_safe` with `HKDF_SHA512` and
/// `Prk::expand`, filled to the length of `ring::hmac::HMAC_SHA256` as key
/// type (32 bytes): neither call fails for that length and a key of 64 bytes.
#[verifier::external_body]
pub(crate) fn hkdf_expand_block(prk: &[u8]) -> (r: Vec<u8>)
    requires
        prk@.len() == 64,
    ensures
        r@ == hkdf_expand32_of(prk@),
        r@.len() == 32,
{
    let mut out = vec![0u8; 32];
    let prk = ring::hkdf::Prk::new_less_safe(ring::hkdf::HKDF_SHA512, prk);
    let okm = prk.expand(&[], ring::hmac::HMAC_SHA256).unwrap();
    okm.fill(&mut out).unwrap();
    out
}

} // verus!
