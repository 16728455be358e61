//! Text rendering of cryptographic bytes: URL-safe base64 with padding,
//! decoded strictly, and the key codecs built on it.

use vstd::prelude::*;
use vstd::string::StrSliceExecFns;
use vstd::utf8::{encode_utf8, is_ascii_chars};
use vstd::utf8::{encode_utf8_valid_utf8, encode_utf8_decode_utf8, is_ascii_chars_encode_utf8};

use crate::errors::Error;
use crate::keys::{CryptoKey, VerifyingKey, vk_parses};

verus! {

/// The padded URL-safe base64 rendering of a byte string.
pub uninterp spec fn b64_of(bytes: Seq<u8>) -> Seq<char>;

/// Relies on base64's URL_SAFE engine encode: the rendering is a function of
/// the input bytes alone.
#[verifier::external_body]
pub fn bytes_to_string(bytes: &[u8]) -> (r: String)
    ensures
        r@ == b64_of(bytes@),
{
    base64::Engine::encode(&base64::engine::general_purpose::URL_SAFE, bytes)
}

/// Relies on base64's URL_SAFE engine decode: its config requires canonical
/// padding and rejects set trailing bits, so it accepts exactly the encoder's
/// outputs, and what it accepts it inverts.
#[verifier::external_body]
pub fn string_to_bytes(encoded: &str) -> (r: Result<Vec<u8>, Error>)
    ensures
        r matches Ok(v) ==> b64_of(v@) == encoded@,
        r matches Ok(v) ==> forall|w: Seq<u8>| b64_of(w) == encoded@ ==> w == v@,
        r is Err ==> forall|w: Seq<u8>| b64_of(w) != encoded@,
        r matches Err(e) ==> e == Error::BadEncoding,
{
    match base64::Engine::decode(&base64::engine::general_purpose::URL_SAFE, encoded.as_bytes()) {
        Ok(v) => Ok(v),
        Err(_) => Err(Error::BadEncoding),
    }
}

/// Renders a public key as URL-safe base64.
pub fn encode_verifying_key(verifying_key: &VerifyingKey) -> (r: String)
    ensures
        r@ == b64_of(verifying_key@),
{
    bytes_to_string(verifying_key.as_bytes().as_slice())
}

/// Decodes a base64 public key, insisting on 32 bytes that form a valid
/// Ed25519 point; everything else is a malformed encoding.
pub fn decode_verifying_key(verifying_key_string: &str) -> (r: Result<VerifyingKey, Error>)
    ensures
        r matches Ok(k) ==> {
            &&& k.wf()
            &&& vk_parses(k@)
            &&& b64_of(k@) == verifying_key_string@
        },
        r matches Err(e) ==> e == Error::BadEncoding,
        (exists|w: Seq<u8>|
            b64_of(w) == verifying_key_string@ && w.len() == 32 && vk_parses(w)) ==> r is Ok,
{
    let bytes = match string_to_bytes(verifying_key_string) {
        Ok(b) => b,
        Err(e) => {
            return Err(e);
        }
    };
    VerifyingKey::parse(bytes)
}

/// Renders a signing key as URL-safe base64, for the key file.
pub fn encode_signing_key(signing_key: &CryptoKey) -> (r: String)
    ensures
        r@ == b64_of(signing_key@),
{
    bytes_to_string(signing_key.secret_bytes().as_slice())
}

/// Decodes a base64 signing key, insisting on exactly 32 bytes.
pub fn decode_signing_key(encoded_string: &str) -> (r: Result<CryptoKey, Error>)
    ensures
        r matches Ok(k) ==> {
            &&& k.wf()
            &&& b64_of(k@) == encoded_string@
        },
        r matches Err(e) ==> e == Error::BadEncoding,
        (exists|w: Seq<u8>| b64_of(w) == encoded_string@ && w.len() == 32) ==> r is Ok,
{
    let bytes = match string_to_bytes(encoded_string) {
        Ok(b) => b,
        Err(e) => {
            return Err(e);
        }
    };
    CryptoKey::from_bytes(bytes)
}

// ---------------------------------------------------------------------------
// Hex rendering
// ---------------------------------------------------------------------------

/// The lower-case hex character of a value below sixteen.
pub open spec fn hex_digit(n: u8) -> char {
    if n == 0 {
        '0'
    } else if n == 1 {
        '1'
    } else if n == 2 {
        '2'
    } else if n == 3 {
        '3'
    } else if n == 4 {
        '4'
    } else if n == 5 {
        '5'
    } else if n == 6 {
        '6'
    } else if n == 7 {
        '7'
    } else if n == 8 {
        '8'
    } else if n == 9 {
        '9'
    } else if n == 10 {
        'a'
    } else if n == 11 {
        'b'
    } else if n == 12 {
        'c'
    } else if n == 13 {
        'd'
    } else if n == 14 {
        'e'
    } else {
        'f'
    }
}

/// The lower-case hex rendering of a byte string: two characters per byte,
/// high nibble first.
pub open spec fn hex_of(bytes: Seq<u8>) -> Seq<char> {
    Seq::new(
        bytes.len() * 2,
        |i: int|
            if i % 2 == 0 {
                hex_digit(bytes[i / 2] / 16)
            } else {
                hex_digit(bytes[i / 2] % 16)
            },
    )
}

/// The ASCII code of a hex character.
fn hex_ascii(n: u8) -> (r: u8)
    requires
        n < 16,
    ensures
        r == hex_digit(n) as u8,
        r < 128,
{
    if n < 10 {
        48 + n
    } else {
        87 + n
    }
}

/// Renders a byte string as lower-case hex.
pub fn hex_string(bytes: &[u8]) -> (r: String)
    ensures
        r@ == hex_of(bytes@),
{
    let ghost chars = hex_of(bytes@);
    let total = bytes.len();
    let mut ascii: Vec<u8> = Vec::new();
    let mut i: usize = 0;
    while i < total
        invariant
            total == bytes@.len(),
            i <= total,
            chars == hex_of(bytes@),
            ascii@.len() == 2 * i,
            forall|j: int| 0 <= j < 2 * i ==> #[trigger] ascii@[j] == chars[j] as u8,
        decreases total - i,
    {
        let b = *vstd::slice::slice_index_get(bytes, i);
        let hi = b / 16;
        let lo = b % 16;
        ascii.push(hex_ascii(hi));
        ascii.push(hex_ascii(lo));
        proof {
            assert(chars[2 * i as int] == hex_digit(bytes@[i as int] / 16));
            assert(chars[2 * i as int + 1] == hex_digit(bytes@[i as int] % 16));
        }
        i = i + 1;
    }
    proof {
        assert forall|j: int| 0 <= j < chars.len() implies '\0' <= #[trigger] chars[j]
            <= '\u{7f}' by {
            assert(chars[j] as u8 == ascii@[j]);
            assert(ascii@[j] < 128);
        }
        assert(is_ascii_chars(chars));
        is_ascii_chars_encode_utf8(chars);
        assert(encode_utf8(chars) =~= ascii@);
        encode_utf8_valid_utf8(chars);
        encode_utf8_decode_utf8(chars);
    }
    match crate::codec::string_from_utf8(ascii) {
        Some(text) => text,
        None => {
            proof {
                assert(false);
            }
            unreached()
        }
    }
}

impl crate::models::Hash {
    /// The hex rendering of this digest, as file names and the dashboard
    /// show it.
    pub fn to_hex(&self) -> (r: String)
        ensures
            r@ == hex_of(self@),
    {
        hex_string(self.as_bytes())
    }
}

} // verus!
