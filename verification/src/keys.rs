//! Signing and verifying keys, and the trusted boundary to the Ed25519
//! implementation. The library holds keys as plain 32-byte values; every call
//! into the crypto crate goes through a wrapper below.

use vstd::prelude::*;

use crate::errors::Error;

verus! {

// ---------------------------------------------------------------------------
// Names for the outside crypto results
// ---------------------------------------------------------------------------

/// The public key that Ed25519 derives from a 32-byte secret key.
pub uninterp spec fn vk_of(sk: Seq<u8>) -> Seq<u8>;

/// The deterministic Ed25519 signature of `msg` under the secret key `sk`.
pub uninterp spec fn sig_of(sk: Seq<u8>, msg: Seq<u8>) -> Seq<u8>;

/// Whether strict Ed25519 verification accepts `sig` on `msg` under the
/// 32-byte public key `vk`; false when `vk` is not a valid key.
pub uninterp spec fn sig_valid(vk: Seq<u8>, msg: Seq<u8>, sig: Seq<u8>) -> bool;

/// Whether 32 bytes decompress to a valid Ed25519 point.
pub uninterp spec fn vk_parses(vk: Seq<u8>) -> bool;

// ---------------------------------------------------------------------------
// Trusted wrappers around ed25519-dalek
// ---------------------------------------------------------------------------

/// Relies on ed25519_dalek::VerifyingKey::From<&SigningKey>: public-key
/// derivation depends on the secret bytes alone, and a derived key is a valid
/// point that VerifyingKey::from_bytes accepts back.
#[verifier::external_body]
pub(crate) fn ed25519_derive_vk(sk: &Vec<u8>) -> (r: Vec<u8>)
    requires
        sk@.len() == 32,
    ensures
        r@.len() == 32,
        r@ == vk_of(sk@),
        vk_parses(r@),
{
    let arr: [u8; 32] = sk.as_slice().try_into().unwrap();
    let signing = ed25519_dalek::SigningKey::from_bytes(&arr);
    ed25519_dalek::VerifyingKey::from(&signing).to_bytes().to_vec()
}

/// Relies on ed25519_dalek::SigningKey and its Signer impl: RFC 8032 signing
/// is a deterministic function of key and message and produces 64 bytes, and
/// a signature so produced passes the crate's verify_strict under the derived
/// public key. The latter also relies on derivation yielding no small-order
/// point, which holds for every secret key except a handful of specially
/// crafted values that no drawn or honestly loaded key produces.
#[verifier::external_body]
pub(crate) fn ed25519_sign(sk: &Vec<u8>, msg: &Vec<u8>) -> (r: Vec<u8>)
    requires
        sk@.len() == 32,
    ensures
        r@.len() == 64,
        r@ == sig_of(sk@, msg@),
        sig_valid(vk_of(sk@), msg@, r@),
{
    let arr: [u8; 32] = sk.as_slice().try_into().unwrap();
    let signing = ed25519_dalek::SigningKey::from_bytes(&arr);
    let sig = ed25519_dalek::ed25519::signature::Signer::sign(&signing, msg.as_slice());
    sig.to_bytes().to_vec()
}

/// Relies on ed25519_dalek::VerifyingKey::verify_strict (with from_bytes as
/// input conversion): acceptance is a function of key, message and signature
/// bytes alone; bytes that are no valid key accept nothing.
#[verifier::external_body]
pub(crate) fn ed25519_verify(vk: &Vec<u8>, msg: &Vec<u8>, sig: &Vec<u8>) -> (r: bool)
    requires
        vk@.len() == 32,
        sig@.len() == 64,
    ensures
        r == sig_valid(vk@, msg@, sig@),
{
    let vk_arr: [u8; 32] = vk.as_slice().try_into().unwrap();
    let sig_arr: [u8; 64] = sig.as_slice().try_into().unwrap();
    let key = match ed25519_dalek::VerifyingKey::from_bytes(&vk_arr) {
        Ok(k) => k,
        Err(_) => return false,
    };
    let signature = ed25519_dalek::Signature::from_bytes(&sig_arr);
    key.verify_strict(msg.as_slice(), &signature).is_ok()
}

/// Relies on ed25519_dalek::VerifyingKey::from_bytes: it succeeds exactly on
/// bytes that decompress to a curve point.
#[verifier::external_body]
pub(crate) fn ed25519_vk_parses(vk: &Vec<u8>) -> (r: bool)
    requires
        vk@.len() == 32,
    ensures
        r == vk_parses(vk@),
{
    let arr: [u8; 32] = vk.as_slice().try_into().unwrap();
    ed25519_dalek::VerifyingKey::from_bytes(&arr).is_ok()
}

/// Relies on ed25519_dalek::SigningKey::generate with rand's OsRng: a fresh
/// 32-byte secret key from the operating system's entropy. Nothing is assumed
/// about the drawn value.
#[verifier::external_body]
fn ed25519_generate() -> (r: Vec<u8>)
    ensures
        r@.len() == 32,
{
    ed25519_dalek::SigningKey::generate(&mut rand::rngs::OsRng).to_bytes().to_vec()
}

// ---------------------------------------------------------------------------
// The library's own key types
// ---------------------------------------------------------------------------

/// A principal's identity: a 32-byte Ed25519 public key.
pub struct VerifyingKey {
    bytes: Vec<u8>,
}

impl View for VerifyingKey {
    type V = Seq<u8>;

    closed spec fn view(&self) -> Seq<u8> {
        self.bytes@
    }
}

impl VerifyingKey {
    pub open spec fn wf(&self) -> bool {
        self@.len() == 32
    }

    /// Accepts exactly 32 bytes that form a valid Ed25519 point.
    pub fn parse(bytes: Vec<u8>) -> (r: Result<VerifyingKey, Error>)
        ensures
            r is Ok <==> (bytes@.len() == 32 && vk_parses(bytes@)),
            r matches Ok(k) ==> k@ == bytes@ && k.wf(),
            r matches Err(e) ==> e == Error::BadEncoding,
    {
        if bytes.len() != 32 {
            return Err(Error::BadEncoding);
        }
        if !ed25519_vk_parses(&bytes) {
            return Err(Error::BadEncoding);
        }
        Ok(VerifyingKey { bytes })
    }

    /// Wraps 32 raw key bytes without checking the point, as an envelope
    /// field does; verification decides validity later.
    pub(crate) fn from_raw(bytes: Vec<u8>) -> (r: VerifyingKey)
        requires
            bytes@.len() == 32,
        ensures
            r@ == bytes@,
            r.wf(),
    {
        VerifyingKey { bytes }
    }

    pub fn as_bytes(&self) -> (r: &Vec<u8>)
        ensures
            r@ == self@,
    {
        &self.bytes
    }

    pub fn same_key(&self, other: &VerifyingKey) -> (r: bool)
        ensures
            r == (self@ == other@),
    {
        crate::codec::bytes_eq(&self.bytes, &other.bytes)
    }
}

impl Clone for VerifyingKey {
    fn clone(&self) -> (r: Self)
        ensures
            r@ == self@,
    {
        VerifyingKey { bytes: self.bytes.clone() }
    }
}

/// A principal's signing key: the 32-byte Ed25519 secret.
pub struct CryptoKey {
    bytes: Vec<u8>,
}

impl View for CryptoKey {
    type V = Seq<u8>;

    closed spec fn view(&self) -> Seq<u8> {
        self.bytes@
    }
}

impl CryptoKey {
    pub open spec fn wf(&self) -> bool {
        self@.len() == 32
    }

    /// Loads a signing key from its 32 raw bytes.
    pub fn from_bytes(bytes: Vec<u8>) -> (r: Result<CryptoKey, Error>)
        ensures
            r is Ok <==> bytes@.len() == 32,
            r matches Ok(k) ==> k@ == bytes@ && k.wf(),
            r matches Err(e) ==> e == Error::BadEncoding,
    {
        if bytes.len() == 32 {
            Ok(CryptoKey { bytes })
        } else {
            Err(Error::BadEncoding)
        }
    }

    /// The secret bytes, for persistence by the caller.
    pub fn secret_bytes(&self) -> (r: &Vec<u8>)
        ensures
            r@ == self@,
    {
        &self.bytes
    }

    /// The public key this signing key answers for.
    pub fn verifying(&self) -> (r: VerifyingKey)
        requires
            self.wf(),
        ensures
            r@ == vk_of(self@),
            r.wf(),
            vk_parses(r@),
    {
        VerifyingKey { bytes: ed25519_derive_vk(&self.bytes) }
    }

    /// The raw signature over a message, for envelope assembly.
    pub(crate) fn sign_bytes(&self, msg: &Vec<u8>) -> (r: Vec<u8>)
        requires
            self.wf(),
        ensures
            r@.len() == 64,
            r@ == sig_of(self@, msg@),
            sig_valid(vk_of(self@), msg@, r@),
    {
        ed25519_sign(&self.bytes, msg)
    }
}

/// Draws a fresh signing key from the system's secure randomness.
pub fn generate_signing_key() -> (r: CryptoKey)
    ensures
        r.wf(),
{
    CryptoKey { bytes: ed25519_generate() }
}

} // verus!
