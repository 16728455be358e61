//! The plain data carriers of the store: names, values, hashes and the small
//! records that the wire protocol exchanges.

use vstd::prelude::*;
use vstd::string::StrSliceExecFns;
use vstd::utf8::encode_utf8;
use vstd::utf8::encode_utf8_decode_utf8;

use crate::errors::Error;

verus! {

// ---------------------------------------------------------------------------
// Name
// ---------------------------------------------------------------------------

/// An opaque UTF-8 string naming one entry inside a principal's keyspace.
/// Equality is byte equality; the canonical encoding admits at most 65 535
/// bytes of UTF-8.
pub struct Name {
    text: String,
}

impl View for Name {
    type V = Seq<char>;

    closed spec fn view(&self) -> Seq<char> {
        self.text@
    }
}

impl Name {
    /// The UTF-8 image of the name, which is what the canonical encoding and
    /// the store's indices work over.
    pub open spec fn bytes(&self) -> Seq<u8> {
        encode_utf8(self@)
    }

    /// A name fits the canonical encoding when its UTF-8 image fits the
    /// 16-bit length prefix.
    pub open spec fn wf(&self) -> bool {
        self.bytes().len() <= 0xffff
    }

    pub fn new(name: String) -> (r: Name)
        ensures
            r@ == name@,
    {
        Name { text: name }
    }

    pub fn as_str(&self) -> (r: &str)
        ensures
            r@ == self@,
    {
        self.text.as_str()
    }

    /// The length in bytes of the UTF-8 image.
    pub fn byte_len(&self) -> (r: usize)
        ensures
            r == self.bytes().len(),
    {
        self.to_bytes().len()
    }

    /// The UTF-8 image as an owned byte vector.
    pub fn to_bytes(&self) -> (r: Vec<u8>)
        ensures
            r@ == self.bytes(),
    {
        self.text.as_str().as_bytes_vec()
    }

    /// Byte equality of names, which coincides with character equality.
    pub fn same_name(&self, other: &Name) -> (r: bool)
        ensures
            r == (self@ == other@),
    {
        self.text == other.text
    }
}

impl Clone for Name {
    fn clone(&self) -> (r: Self)
        ensures
            r@ == self@,
    {
        Name { text: self.text.clone() }
    }
}

/// Character equality of two strings, decided through their UTF-8 images.
pub fn same_str(a: &str, b: &str) -> (r: bool)
    ensures
        r == (a@ == b@),
{
    let av = a.as_bytes_vec();
    let bv = b.as_bytes_vec();
    let r = crate::codec::bytes_eq(&av, &bv);
    proof {
        broadcast use encode_utf8_decode_utf8;

        if av@ == bv@ {
            assert(vstd::utf8::decode_utf8(encode_utf8(a@)) == a@);
            assert(vstd::utf8::decode_utf8(encode_utf8(b@)) == b@);
        }
    }
    r
}

// ---------------------------------------------------------------------------
// Value
// ---------------------------------------------------------------------------

/// An opaque byte sequence; the core gives it no interpretation.
pub struct Value {
    bytes: Vec<u8>,
}

impl View for Value {
    type V = Seq<u8>;

    closed spec fn view(&self) -> Seq<u8> {
        self.bytes@
    }
}

impl Value {
    pub fn new(bytes: Vec<u8>) -> (r: Value)
        ensures
            r@ == bytes@,
    {
        Value { bytes }
    }

    pub fn as_bytes(&self) -> (r: &[u8])
        ensures
            r@ == self@,
    {
        self.bytes.as_slice()
    }
}

impl Clone for Value {
    fn clone(&self) -> (r: Self)
        ensures
            r@ == self@,
    {
        Value { bytes: self.bytes.clone() }
    }
}

// ---------------------------------------------------------------------------
// Hash
// ---------------------------------------------------------------------------

/// A 32-byte Blake3 digest.
pub struct Hash {
    bytes: Vec<u8>,
}

impl View for Hash {
    type V = Seq<u8>;

    closed spec fn view(&self) -> Seq<u8> {
        self.bytes@
    }
}

impl Hash {
    pub open spec fn wf(&self) -> bool {
        self@.len() == 32
    }

    /// Wraps 32 raw digest bytes; any other length is a malformed encoding.
    pub fn from_bytes(bytes: Vec<u8>) -> (r: Result<Hash, Error>)
        ensures
            bytes@.len() == 32 ==> (r matches Ok(h) && h@ == bytes@ && h.wf()),
            bytes@.len() != 32 ==> (r matches Err(e) && e == Error::BadEncoding),
    {
        if bytes.len() == 32 {
            Ok(Hash { bytes })
        } else {
            Err(Error::BadEncoding)
        }
    }

    pub fn as_bytes(&self) -> (r: &[u8])
        ensures
            r@ == self@,
    {
        self.bytes.as_slice()
    }

    pub fn same_hash(&self, other: &Hash) -> (r: bool)
        ensures
            r == (self@ == other@),
    {
        crate::codec::bytes_eq(&self.bytes, &other.bytes)
    }
}

impl Clone for Hash {
    fn clone(&self) -> (r: Self)
        ensures
            r@ == self@,
    {
        Hash { bytes: self.bytes.clone() }
    }
}

// ---------------------------------------------------------------------------
// Wire records
// ---------------------------------------------------------------------------

/// The state-hash record exchanged by the synchronization endpoints.
pub struct StateHash {
    pub hash: Hash,
}

impl View for StateHash {
    type V = Seq<u8>;

    open spec fn view(&self) -> Seq<u8> {
        self.hash@
    }
}

impl StateHash {
    pub fn matches(&self, other: &StateHash) -> (r: bool)
        ensures
            r == (self@ == other@),
    {
        self.hash.same_hash(&other.hash)
    }
}

impl Clone for StateHash {
    fn clone(&self) -> (r: Self)
        ensures
            r@ == self@,
    {
        StateHash { hash: self.hash.clone() }
    }
}

/// The peer list served by the synchronization endpoints.
pub struct Peers {
    pub peers: Vec<String>,
}

/// The summary a peer renders about itself: counts and a truncated state hash.
pub struct Dashboard {
    pub event_count: usize,
    pub state_hash: String,
    pub peer_count: usize,
    pub version: String,
}

} // verus!
