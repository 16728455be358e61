//! The trusted boundary to the Blake3 hash, and the verified step from raw
//! digest bytes to the library's `Hash` type.

use vstd::prelude::*;

verus! {

/// The 32-byte Blake3 digest of a byte string.
pub uninterp spec fn blake3_of(data: Seq<u8>) -> Seq<u8>;

/// Relies on blake3::hash: a pure function of the input bytes returning a
/// 32-byte digest.
#[verifier::external_body]
fn blake3_digest(data: &Vec<u8>) -> (r: Vec<u8>)
    ensures
        r@.len() == 32,
        r@ == blake3_of(data@),
{
    blake3::hash(data.as_slice()).as_bytes().to_vec()
}

/// Hashes a byte string into the library's digest type.
pub fn hash_bytes(data: &Vec<u8>) -> (r: crate::models::Hash)
    ensures
        r.wf(),
        r@ == blake3_of(data@),
{
    let digest = blake3_digest(data);
    match crate::models::Hash::from_bytes(digest) {
        Ok(h) => h,
        Err(_) => {
            // Unreachable: the digest is 32 bytes.
            proof {
                assert(false);
            }
            unreached()
        }
    }
}

} // verus!
