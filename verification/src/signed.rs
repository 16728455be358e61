//! The signed envelope: a payload, the author's public key, and an Ed25519
//! signature over the payload's canonical encoding.

use vstd::prelude::*;
use vstd::utf8::encode_utf8;

use crate::codec::{push_bytes, read_bytes};
use crate::events::{Event, EventV, enc_event, sd_event, encode_event, decode_event};
use crate::events::{lemma_sd_event_roundtrip, lemma_sd_event_sound};
use crate::keys::{CryptoKey, VerifyingKey, sig_of, sig_valid, vk_of};

verus! {

// ---------------------------------------------------------------------------
// Signable payloads
// ---------------------------------------------------------------------------

/// A payload can be signed when it has a canonical binary encoding; the
/// signature is always computed over that encoding.
pub trait Signable: View + Sized {
    /// The canonical binary image of a payload value.
    spec fn canon(v: Self::V) -> Seq<u8>;

    /// When a payload fits its canonical encoding.
    spec fn fits(v: Self::V) -> bool;

    /// Produces the canonical encoding.
    fn canonical_bytes(&self) -> (r: Vec<u8>)
        requires
            Self::fits(self@),
        ensures
            r@ == Self::canon(self@),
    ;
}

impl Signable for Event {
    open spec fn canon(v: EventV) -> Seq<u8> {
        enc_event(v)
    }

    open spec fn fits(v: EventV) -> bool {
        v.wf()
    }

    fn canonical_bytes(&self) -> (r: Vec<u8>)
    {
        let mut out: Vec<u8> = Vec::new();
        encode_event(self, &mut out);
        out
    }
}

// ---------------------------------------------------------------------------
// The envelope
// ---------------------------------------------------------------------------

/// A signed envelope. The signature covers the canonical encoding of `inner`
/// only; key and signature are raw Ed25519 bytes.
pub struct Signed<T: Signable> {
    pub inner: T,
    pub verifying_key: Vec<u8>,
    pub signature: Vec<u8>,
}

/// The mathematical image of an envelope.
pub struct SignedV<V> {
    pub inner: V,
    pub verifying_key: Seq<u8>,
    pub signature: Seq<u8>,
}

impl<T: Signable> View for Signed<T> {
    type V = SignedV<T::V>;

    open spec fn view(&self) -> SignedV<T::V> {
        SignedV {
            inner: self.inner@,
            verifying_key: self.verifying_key@,
            signature: self.signature@,
        }
    }
}

/// A well-formed event envelope: the payload fits its encoding and the key
/// and signature have the fixed Ed25519 widths.
pub open spec fn wf_env(v: SignedV<EventV>) -> bool {
    &&& v.inner.wf()
    &&& v.verifying_key.len() == 32
    &&& v.signature.len() == 64
}

impl<T: Signable> Signed<T> {
    /// Assembles an envelope from its parts.
    pub fn new(inner: T, verifying_key: VerifyingKey, signature: Vec<u8>) -> (r: Self)
        requires
            signature@.len() == 64,
        ensures
            r@.inner == inner@,
            r@.verifying_key == verifying_key@,
            r@.signature == signature@,
    {
        let key_bytes = verifying_key.as_bytes().clone();
        Signed { inner, verifying_key: key_bytes, signature }
    }

    /// The envelope's declared author.
    pub fn verifying_key(&self) -> (r: VerifyingKey)
        requires
            self@.verifying_key.len() == 32,
        ensures
            r@ == self@.verifying_key,
            r.wf(),
    {
        VerifyingKey::from_raw(self.verifying_key.clone())
    }

    /// The raw signature bytes.
    pub fn signature(&self) -> (r: &Vec<u8>)
        ensures
            r@ == self@.signature,
    {
        &self.signature
    }

    /// Strict Ed25519 verification of this envelope against a given key:
    /// true exactly when the signature covers the canonical encoding of the
    /// payload under that key.
    pub fn verify(&self, verifying_key: &VerifyingKey) -> (r: bool)
        requires
            T::fits(self@.inner),
            verifying_key.wf(),
            self@.signature.len() == 64,
        ensures
            r == sig_valid(verifying_key@, T::canon(self@.inner), self@.signature),
    {
        let message = self.inner.canonical_bytes();
        crate::keys::ed25519_verify(verifying_key.as_bytes(), &message, &self.signature)
    }
}

impl CryptoKey {
    /// Signs a payload: canonically encode, sign, and package the envelope
    /// under this key. The result verifies under the envelope's own key.
    pub fn sign<T: Signable>(&self, payload: T) -> (r: Signed<T>)
        requires
            self.wf(),
            T::fits(payload@),
        ensures
            r@.inner == payload@,
            r@.verifying_key == vk_of(self@),
            r@.signature == sig_of(self@, T::canon(payload@)),
            r@.signature.len() == 64,
            r@.verifying_key.len() == 32,
            sig_valid(r@.verifying_key, T::canon(r@.inner), r@.signature),
    {
        let message = payload.canonical_bytes();
        let signature = self.sign_bytes(&message);
        let verifying_key = self.verifying();
        Signed::new(payload, verifying_key, signature)
    }
}

impl Signed<Event> {
    /// Decides structural well-formedness: the payload fits the canonical
    /// encoding and key and signature have the Ed25519 widths.
    pub fn check_wf(&self) -> (r: bool)
        ensures
            r == wf_env(self@),
    {
        let name_ok = self.inner.name().byte_len() <= 0xffff;
        let widths_ok = self.verifying_key.len() == 32 && self.signature.len() == 64;
        // A value held in memory always fits the 64-bit length prefix; taking
        // its length puts that bound in evidence.
        let value_ok = match &self.inner {
            Event::Put(s) => {
                let n = s.value.as_bytes().len();
                proof {
                    assert(s.value@.len() == n);
                }
                true
            }
            Event::Delete(_) => true,
        };
        proof {
            if name_ok && widths_ok {
                assert(self@.inner.wf() == (encode_utf8(self@.inner.name()).len() <= 0xffff
                    && match self@.inner {
                        EventV::Put(sv) => sv.value.len() < 0x1_0000_0000_0000_0000,
                        EventV::Delete(_) => true,
                    }));
            }
        }
        name_ok && widths_ok && value_ok
    }
}

impl Clone for Signed<Event> {
    fn clone(&self) -> (r: Self)
        ensures
            r@ == self@,
    {
        Signed {
            inner: self.inner.clone(),
            verifying_key: self.verifying_key.clone(),
            signature: self.signature.clone(),
        }
    }
}

// ---------------------------------------------------------------------------
// Canonical encoding of event envelopes
// ---------------------------------------------------------------------------

/// The canonical binary image of an event envelope: the payload's encoding,
/// then 32 key bytes, then 64 signature bytes.
pub open spec fn enc_env(v: SignedV<EventV>) -> Seq<u8> {
    enc_event(v.inner) + v.verifying_key + v.signature
}

/// Parses a whole envelope: an event, then exactly 32 + 64 trailing bytes.
pub open spec fn sd_env(s: Seq<u8>) -> Option<SignedV<EventV>> {
    match sd_event(s) {
        Some((e, r)) => if r.len() == 96 {
            Some(SignedV { inner: e, verifying_key: r.take(32), signature: r.skip(32) })
        } else {
            None
        },
        None => None,
    }
}

/// Produces the canonical encoding of an envelope.
pub fn encode_env(env: &Signed<Event>) -> (r: Vec<u8>)
    requires
        wf_env(env@),
    ensures
        r@ == enc_env(env@),
{
    let mut out: Vec<u8> = Vec::new();
    encode_event(&env.inner, &mut out);
    push_bytes(&mut out, env.verifying_key.as_slice());
    push_bytes(&mut out, env.signature.as_slice());
    proof {
        assert(out@ =~= enc_env(env@));
    }
    out
}

/// Parses an envelope out of exactly the whole of `bytes`.
pub fn decode_env(bytes: &Vec<u8>) -> (r: Option<Signed<Event>>)
    ensures
        match r {
            Some(env) => sd_env(bytes@) == Some(env@) && wf_env(env@),
            None => sd_env(bytes@) is None,
        },
{
    proof {
        assert(bytes@.skip(0) =~= bytes@);
    }
    let (event, at) = match decode_event(bytes, 0) {
        Some(x) => x,
        None => {
            return None;
        }
    };
    let total = bytes.len();
    if total - at != 96 {
        return None;
    }
    let verifying_key = read_bytes(bytes.as_slice(), at, 32);
    let signature = read_bytes(bytes.as_slice(), at + 32, 64);
    proof {
        let rest = bytes@.skip(at as int);
        assert(rest.take(32) =~= bytes@.subrange(at as int, at + 32));
        assert(rest.skip(32) =~= bytes@.subrange(at + 32, at + 96));
        lemma_sd_event_sound(bytes@);
    }
    Some(Signed { inner: event, verifying_key, signature })
}

// ---------------------------------------------------------------------------
// The envelope codec round-trips
// ---------------------------------------------------------------------------

/// Decoding inverts encoding on well-formed envelopes.
pub proof fn lemma_sd_env_roundtrip(v: SignedV<EventV>)
    requires
        wf_env(v),
    ensures
        sd_env(enc_env(v)) == Some(v),
{
    let tail = v.verifying_key + v.signature;
    assert(enc_env(v) =~= enc_event(v.inner) + tail);
    lemma_sd_event_roundtrip(v.inner, tail);
    assert(tail.take(32) =~= v.verifying_key);
    assert(tail.skip(32) =~= v.signature);
}

/// Whatever parses as an envelope is well formed and re-encodes to exactly
/// the input bytes.
pub proof fn lemma_sd_env_sound(s: Seq<u8>)
    ensures
        sd_env(s) matches Some(v) ==> wf_env(v) && enc_env(v) == s,
{
    if let Some((e, r)) = sd_event(s) {
        lemma_sd_event_sound(s);
        if r.len() == 96 {
            assert(r =~= r.take(32) + r.skip(32));
            let v = SignedV { inner: e, verifying_key: r.take(32), signature: r.skip(32) };
            assert(enc_env(v) =~= (enc_event(e) + r.take(32)) + r.skip(32));
            assert(s =~= enc_event(e) + r);
            assert(enc_env(v) =~= s);
        }
    }
}

/// The canonical encoding is injective on well-formed envelopes: equal bytes
/// mean equal envelopes.
pub proof fn lemma_enc_env_injective(a: SignedV<EventV>, b: SignedV<EventV>)
    requires
        wf_env(a),
        wf_env(b),
        enc_env(a) == enc_env(b),
    ensures
        a == b,
{
    lemma_sd_env_roundtrip(a);
    lemma_sd_env_roundtrip(b);
}

} // verus!
