//! The immutable blob store: content blocks addressed by the Blake3 digest
//! of their canonical encoding, written once and never changed.

use vstd::prelude::*;
use vstd::map::*;
use vstd::bytes::{spec_u64_to_le_bytes};

use crate::codec::{push_u64, push_bytes, read_bytes};
use crate::events::{enc_run64, sd_run, sd_u64, sd_run64, lemma_sd_u64_roundtrip,
    lemma_sd_run64_roundtrip, decode_run64};
use crate::hashing::{blake3_of, hash_bytes};

verus! {

/// An immutable block: opaque payload bytes, and the digests of the blocks
/// it references. Walking the references is the caller's concern.
pub struct ContentBlock {
    pub data: Vec<u8>,
    pub references: Vec<crate::models::Hash>,
}

/// The mathematical image of a block.
pub struct ContentBlockV {
    pub data: Seq<u8>,
    pub references: Seq<Seq<u8>>,
}

impl View for ContentBlock {
    type V = ContentBlockV;

    open spec fn view(&self) -> ContentBlockV {
        ContentBlockV {
            data: self.data@,
            references: Seq::new(self.references@.len(), |i: int| self.references@[i]@),
        }
    }
}

/// A block fits its canonical encoding when its lengths fit the 64-bit
/// prefixes and every reference is a full digest.
pub open spec fn wf_block(v: ContentBlockV) -> bool {
    &&& v.data.len() < 0x1_0000_0000_0000_0000
    &&& v.references.len() < 0x1_0000_0000_0000_0000
    &&& forall|i: int| 0 <= i < v.references.len() ==> (#[trigger] v.references[i]).len() == 32
}

impl Clone for ContentBlock {
    fn clone(&self) -> (r: Self)
        ensures
            r@ == self@,
    {
        let mut references: Vec<crate::models::Hash> = Vec::new();
        let mut i: usize = 0;
        while i < self.references.len()
            invariant
                i <= self.references@.len(),
                references@.len() == i,
                forall|j: int| 0 <= j < i ==> #[trigger] references@[j]@ == self.references@[j]@,
            decreases self.references@.len() - i,
        {
            references.push(self.references[i].clone());
            i = i + 1;
        }
        let r = ContentBlock { data: self.data.clone(), references };
        proof {
            assert(r@.references =~= self@.references);
        }
        r
    }
}

// ---------------------------------------------------------------------------
// Canonical encoding of blocks
// ---------------------------------------------------------------------------

/// The concatenated reference digests.
pub open spec fn enc_refs(refs: Seq<Seq<u8>>) -> Seq<u8>
    decreases refs.len(),
{
    if refs.len() == 0 {
        Seq::<u8>::empty()
    } else {
        refs[0] + enc_refs(refs.drop_first())
    }
}

/// The canonical binary image of a block: length-prefixed payload, a 64-bit
/// reference count, then the 32-byte digests in order.
pub open spec fn enc_block(v: ContentBlockV) -> Seq<u8> {
    enc_run64(v.data) + spec_u64_to_le_bytes(v.references.len() as u64) + enc_refs(v.references)
}

proof fn lemma_enc_refs_snoc(refs: Seq<Seq<u8>>, i: int)
    requires
        0 <= i < refs.len(),
    ensures
        enc_refs(refs.take(i + 1)) == enc_refs(refs.take(i)) + refs[i],
    decreases i,
{
    if i == 0 {
        assert(refs.take(1)[0] == refs[0]);
        assert(refs.take(1).drop_first() =~= Seq::<Seq<u8>>::empty());
        assert(enc_refs(Seq::<Seq<u8>>::empty()) == Seq::<u8>::empty());
        assert(enc_refs(refs.take(0)) == Seq::<u8>::empty()) by {
            assert(refs.take(0) =~= Seq::<Seq<u8>>::empty());
        }
        assert(enc_refs(refs.take(1)) == refs[0] + Seq::<u8>::empty());
        assert(refs[0] + Seq::<u8>::empty() =~= refs[0]);
        assert(Seq::<u8>::empty() + refs[0] =~= refs[0]);
    } else {
        let a = refs.take(i + 1);
        let b = refs.take(i);
        assert(a[0] == refs[0]);
        assert(b[0] == refs[0]);
        assert(a.drop_first() =~= refs.drop_first().take(i));
        assert(b.drop_first() =~= refs.drop_first().take(i - 1));
        assert(refs.drop_first()[i - 1] == refs[i]);
        lemma_enc_refs_snoc(refs.drop_first(), i - 1);
        assert(enc_refs(a) == refs[0] + enc_refs(refs.drop_first().take(i)));
        assert(enc_refs(b) == refs[0] + enc_refs(refs.drop_first().take(i - 1)));
        assert(refs[0] + (enc_refs(refs.drop_first().take(i - 1)) + refs[i])
            =~= (refs[0] + enc_refs(refs.drop_first().take(i - 1))) + refs[i]);
    }
}

/// Produces the canonical encoding of a block.
pub fn encode_content_block(block: &ContentBlock) -> (r: Vec<u8>)
    requires
        wf_block(block@),
    ensures
        r@ == enc_block(block@),
{
    let ghost refs = block@.references;
    let mut out: Vec<u8> = Vec::new();
    push_u64(&mut out, block.data.len() as u64);
    push_bytes(&mut out, block.data.as_slice());
    push_u64(&mut out, block.references.len() as u64);
    let ghost head = out@;
    proof {
        assert(head =~= enc_run64(block@.data) + spec_u64_to_le_bytes(refs.len() as u64));
        assert(refs.take(0) =~= Seq::<Seq<u8>>::empty());
        assert(enc_refs(refs.take(0)) == Seq::<u8>::empty());
        assert(out@ =~= head + enc_refs(refs.take(0)));
    }
    let mut i: usize = 0;
    while i < block.references.len()
        invariant
            refs == block@.references,
            wf_block(block@),
            block.references@.len() == refs.len(),
            i <= refs.len(),
            out@ == head + enc_refs(refs.take(i as int)),
            head == enc_run64(block@.data) + spec_u64_to_le_bytes(refs.len() as u64),
        decreases refs.len() - i,
    {
        proof {
            assert(refs[i as int] == block.references@[i as int]@);
        }
        push_bytes(&mut out, block.references[i].as_bytes());
        proof {
            lemma_enc_refs_snoc(refs, i as int);
            assert(out@ =~= head + enc_refs(refs.take(i + 1)));
        }
        i = i + 1;
    }
    proof {
        assert(refs.take(refs.len() as int) =~= refs);
        assert(out@ =~= enc_block(block@));
    }
    out
}

// ---------------------------------------------------------------------------
// Decoding blocks
// ---------------------------------------------------------------------------

/// Parses `n` reference digests off the front of `s`.
pub open spec fn sd_refs(s: Seq<u8>, n: int) -> Option<(Seq<Seq<u8>>, Seq<u8>)>
    decreases n,
{
    if n < 0 {
        None
    } else if n == 0 {
        Some((Seq::<Seq<u8>>::empty(), s))
    } else {
        match sd_run(s, 32) {
            Some((h, r)) => match sd_refs(r, n - 1) {
                Some((hs, r2)) => Some((seq![h] + hs, r2)),
                None => None,
            },
            None => None,
        }
    }
}

/// Parses a whole block out of exactly `s`.
pub open spec fn sd_block(s: Seq<u8>) -> Option<ContentBlockV> {
    match sd_run64(s) {
        Some((data, r)) => match sd_u64(r) {
            Some((n, r2)) => match sd_refs(r2, n as int) {
                Some((refs, r3)) => if r3.len() == 0 {
                    Some(ContentBlockV { data, references: refs })
                } else {
                    None
                },
                None => None,
            },
            None => None,
        },
        None => None,
    }
}

proof fn lemma_sd_refs_roundtrip(refs: Seq<Seq<u8>>, rest: Seq<u8>)
    requires
        forall|i: int| 0 <= i < refs.len() ==> (#[trigger] refs[i]).len() == 32,
    ensures
        sd_refs(enc_refs(refs) + rest, refs.len() as int) == Some((refs, rest)),
    decreases refs.len(),
{
    if refs.len() == 0 {
        assert(enc_refs(refs) + rest =~= rest);
    } else {
        let s = enc_refs(refs) + rest;
        let tail = enc_refs(refs.drop_first()) + rest;
        assert(s =~= refs[0] + tail);
        assert(refs[0].len() == 32);
        assert(s.take(32) =~= refs[0]);
        assert(s.skip(32) =~= tail);
        lemma_sd_refs_roundtrip(refs.drop_first(), rest);
        assert(seq![refs[0]] + refs.drop_first() =~= refs);
    }
}

/// Decoding inverts encoding on well-formed blocks.
pub proof fn lemma_sd_block_roundtrip(v: ContentBlockV)
    requires
        wf_block(v),
    ensures
        sd_block(enc_block(v)) == Some(v),
{
    let s = enc_block(v);
    let tail1 = spec_u64_to_le_bytes(v.references.len() as u64) + enc_refs(v.references);
    assert(s =~= enc_run64(v.data) + tail1);
    lemma_sd_run64_roundtrip(v.data, tail1);
    lemma_sd_u64_roundtrip(v.references.len() as u64, enc_refs(v.references));
    let empty_rest = Seq::<u8>::empty();
    assert(enc_refs(v.references) + empty_rest =~= enc_refs(v.references));
    lemma_sd_refs_roundtrip(v.references, empty_rest);
    assert((v.references.len() as u64) as int == v.references.len() as int);
}

/// Parses a block out of exactly the whole of `bytes`, as the blob files
/// store them.
pub fn decode_content_block(bytes: &Vec<u8>) -> (r: Option<ContentBlock>)
    ensures
        match r {
            Some(b) => sd_block(bytes@) == Some(b@) && wf_block(b@),
            None => sd_block(bytes@) is None,
        },
{
    proof {
        assert(bytes@.skip(0) =~= bytes@);
    }
    let (data, at1) = match decode_run64(bytes, 0) {
        Some(x) => x,
        None => {
            return None;
        }
    };
    let total = bytes.len();
    if total - at1 < 8 {
        proof {
            assert(bytes@.skip(at1 as int).len() < 8);
            assert(sd_u64(bytes@.skip(at1 as int)) is None);
            assert(sd_block(bytes@) is None);
        }
        return None;
    }
    let n = crate::codec::read_u64(bytes.as_slice(), at1);
    proof {
        assert(bytes@.skip(at1 as int).take(8) =~= bytes@.subrange(at1 as int, at1 + 8));
        assert(bytes@.skip(at1 as int).skip(8) =~= bytes@.skip(at1 + 8));
    }
    let at2 = at1 + 8;
    let ghost refs_start = at2 as int;
    let mut references: Vec<crate::models::Hash> = Vec::new();
    let mut at = at2;
    let mut k: u64 = 0;
    while k < n
        invariant
            total == bytes@.len(),
            refs_start == at2 as int,
            at1 + 8 == at2,
            at2 <= at <= total,
            k <= n,
            sd_run64(bytes@) == Some((data@, bytes@.skip(at1 as int))),
            sd_u64(bytes@.skip(at1 as int)) == Some((n, bytes@.skip(refs_start))),
            ({
                let cv = Seq::new(references@.len() as nat, |j: int| references@[j]@);
                &&& references@.len() == k
                &&& (forall|j: int| 0 <= j < k ==> (#[trigger] references@[j]@).len() == 32)
                &&& match sd_refs(bytes@.skip(at as int), n - k) {
                    Some((hs, rest)) => sd_refs(bytes@.skip(refs_start), n as int) == Some(
                        (cv + hs, rest),
                    ),
                    None => sd_refs(bytes@.skip(refs_start), n as int) is None,
                }
            }),
        decreases n - k,
    {
        let ghost cv = Seq::new(references@.len() as nat, |j: int| references@[j]@);
        if total - at < 32 {
            proof {
                assert(bytes@.skip(at as int).len() < 32);
                assert(sd_run(bytes@.skip(at as int), 32) is None);
                assert(sd_refs(bytes@.skip(at as int), n - k) is None);
                assert(sd_refs(bytes@.skip(refs_start), n as int) is None);
                assert(sd_u64(bytes@.skip(at1 as int)) == Some((n, bytes@.skip(refs_start))));
                assert(sd_block(bytes@) is None);
            }
            return None;
        }
        let run = read_bytes(bytes.as_slice(), at, 32);
        proof {
            assert(bytes@.skip(at as int).take(32) =~= bytes@.subrange(at as int, at + 32));
            assert(bytes@.skip(at as int).skip(32) =~= bytes@.skip(at + 32));
        }
        let h = match crate::models::Hash::from_bytes(run) {
            Ok(h) => h,
            Err(_) => {
                proof {
                    assert(false);
                }
                unreached()
            }
        };
        references.push(h);
        proof {
            let cv2 = Seq::new(references@.len() as nat, |j: int| references@[j]@);
            assert(cv2 =~= cv.push(bytes@.subrange(at as int, at + 32)));
            let here = bytes@.skip(at as int);
            let next = bytes@.skip(at + 32);
            assert(sd_refs(here, n - k) == (match sd_refs(next, n - k - 1) {
                Some((hs, rest)) => Some((seq![here.take(32)] + hs, rest)),
                None => None::<(Seq<Seq<u8>>, Seq<u8>)>,
            }));
            if let Some((hs, rest)) = sd_refs(next, n - k - 1) {
                assert(cv + (seq![here.take(32)] + hs) =~= cv2 + hs);
            }
        }
        at = at + 32;
        k = k + 1;
    }
    if at != total {
        proof {
            assert(sd_refs(bytes@.skip(at as int), 0) == Some(
                (Seq::<Seq<u8>>::empty(), bytes@.skip(at as int)),
            ));
            assert(bytes@.skip(at as int).len() != 0);
            assert(sd_u64(bytes@.skip(at1 as int)) == Some((n, bytes@.skip(refs_start))));
            assert(sd_block(bytes@) is None);
        }
        return None;
    }
    let block = ContentBlock { data, references };
    proof {
        assert(sd_u64(bytes@.skip(at1 as int)) == Some((n, bytes@.skip(refs_start))));
        let cv = Seq::new(block.references@.len() as nat, |j: int| block.references@[j]@);
        assert(sd_refs(bytes@.skip(at as int), 0) == Some(
            (Seq::<Seq<u8>>::empty(), bytes@.skip(at as int)),
        ));
        assert(cv + Seq::<Seq<u8>>::empty() =~= cv);
        assert(bytes@.skip(at as int).len() == 0);
        assert(block@.references =~= cv);
        assert(sd_block(bytes@) == Some(block@));
    }
    Some(block)
}

// ---------------------------------------------------------------------------
// The in-memory content-addressed store
// ---------------------------------------------------------------------------

struct BlobRecord {
    hash: crate::models::Hash,
    block: ContentBlock,
}

/// A write-once store of blocks addressed by the digest of their canonical
/// encoding.
pub struct ImmutableStore {
    entries: Vec<BlobRecord>,
}

spec fn blob_hashes_unique(s: Seq<BlobRecord>) -> bool {
    forall|i: int, j: int|
        0 <= i < s.len() && 0 <= j < s.len() && i != j
            ==> #[trigger] s[i].hash@ != #[trigger] s[j].hash@
}

spec fn blob_map_of(s: Seq<BlobRecord>) -> Map<Seq<u8>, ContentBlockV> {
    Map::new(
        |h: Seq<u8>| exists|i: int| 0 <= i < s.len() && s[i].hash@ == h,
        |h: Seq<u8>| s[choose|i: int| 0 <= i < s.len() && s[i].hash@ == h].block@,
    )
}

proof fn lemma_blob_map_index(s: Seq<BlobRecord>, i: int)
    requires
        blob_hashes_unique(s),
        0 <= i < s.len(),
    ensures
        blob_map_of(s).contains_key(s[i].hash@),
        blob_map_of(s)[s[i].hash@] == s[i].block@,
{
    let h = s[i].hash@;
    assert(exists|j: int| 0 <= j < s.len() && s[j].hash@ == h);
    let j = choose|j: int| 0 <= j < s.len() && s[j].hash@ == h;
    assert(j == i);
}

proof fn lemma_blob_map_push(s: Seq<BlobRecord>, rec: BlobRecord)
    requires
        blob_hashes_unique(s),
        forall|i: int| 0 <= i < s.len() ==> #[trigger] s[i].hash@ != rec.hash@,
    ensures
        blob_hashes_unique(s.push(rec)),
        blob_map_of(s.push(rec)) == blob_map_of(s).insert(rec.hash@, rec.block@),
{
    let t = s.push(rec);
    assert forall|i: int, j: int|
        0 <= i < t.len() && 0 <= j < t.len() && i != j implies #[trigger] t[i].hash@
        != #[trigger] t[j].hash@ by {
        if i < s.len() && j < s.len() {
            assert(t[i] == s[i]);
            assert(t[j] == s[j]);
            assert(s[i].hash@ != s[j].hash@);
        } else if i < s.len() {
            assert(t[i] == s[i]);
            assert(t[j] == rec);
            assert(s[i].hash@ != rec.hash@);
        } else {
            assert(t[i] == rec);
            assert(t[j] == s[j]);
            assert(s[j].hash@ != rec.hash@);
        }
    }
    assert_maps_equal!(blob_map_of(t), blob_map_of(s).insert(rec.hash@, rec.block@), h => {
        if h == rec.hash@ {
            assert(t[s.len() as int] == rec);
            lemma_blob_map_index(t, s.len() as int);
        } else {
            if blob_map_of(t).contains_key(h) {
                let i = choose|i: int| 0 <= i < t.len() && t[i].hash@ == h;
                lemma_blob_map_index(t, i);
                assert(i != s.len());
                assert(t[i] == s[i]);
                lemma_blob_map_index(s, i);
            }
            if blob_map_of(s).contains_key(h) {
                let i = choose|i: int| 0 <= i < s.len() && s[i].hash@ == h;
                lemma_blob_map_index(s, i);
                assert(t[i] == s[i]);
                lemma_blob_map_index(t, i);
            }
        }
    });
}

impl ImmutableStore {
    /// The stored blocks, by digest.
    pub closed spec fn as_map(self) -> Map<Seq<u8>, ContentBlockV> {
        blob_map_of(self.entries@)
    }

    /// Every entry is addressed by the digest of its canonical encoding.
    pub closed spec fn wf(self) -> bool {
        &&& blob_hashes_unique(self.entries@)
        &&& forall|i: int|
            0 <= i < self.entries@.len() ==> {
                &&& wf_block(#[trigger] self.entries@[i].block@)
                &&& self.entries@[i].hash@ == blake3_of(enc_block(self.entries@[i].block@))
            }
    }

    /// An empty store.
    pub fn new() -> (r: ImmutableStore)
        ensures
            r.wf(),
            r.as_map() == Map::<Seq<u8>, ContentBlockV>::empty(),
    {
        let r = ImmutableStore { entries: Vec::new() };
        proof {
            assert(r.as_map() =~= Map::<Seq<u8>, ContentBlockV>::empty());
        }
        r
    }

    /// The index of the entry under a digest, if one exists.
    fn find_hash(&self, hash: &crate::models::Hash) -> (r: Option<usize>)
        ensures
            match r {
                Some(i) => i < self.entries@.len() && self.entries@[i as int].hash@ == hash@,
                None => forall|j: int|
                    0 <= j < self.entries@.len() ==> #[trigger] self.entries@[j].hash@ != hash@,
            },
    {
        let mut i: usize = 0;
        loop
            invariant
                i <= self.entries@.len(),
                forall|j: int| 0 <= j < i ==> #[trigger] self.entries@[j].hash@ != hash@,
            decreases self.entries@.len() - i,
        {
            if i >= self.entries.len() {
                return None;
            }
            if self.entries[i].hash.same_hash(hash) {
                return Some(i);
            }
            i = i + 1;
        }
    }

    /// Writes a block once: the block is stored under the digest of its
    /// canonical encoding, and a digest already present is left exactly as
    /// it is.
    pub fn set(&mut self, content: &ContentBlock) -> (r: crate::models::Hash)
        requires
            old(self).wf(),
            wf_block(content@),
        ensures
            final(self).wf(),
            r@ == blake3_of(enc_block(content@)),
            r.wf(),
            final(self).as_map() == if old(self).as_map().contains_key(r@) {
                old(self).as_map()
            } else {
                old(self).as_map().insert(r@, content@)
            },
    {
        let encoded = encode_content_block(content);
        let digest = hash_bytes(&encoded);
        match self.find_hash(&digest) {
            Some(i) => {
                proof {
                    lemma_blob_map_index(self.entries@, i as int);
                }
                digest
            }
            None => {
                let record = BlobRecord { hash: digest.clone(), block: content.clone() };
                proof {
                    if self.as_map().contains_key(digest@) {
                        let j = choose|j: int|
                            0 <= j < self.entries@.len() && self.entries@[j].hash@ == digest@;
                    }
                    lemma_blob_map_push(self.entries@, record);
                }
                self.entries.push(record);
                digest
            }
        }
    }

    /// Reads the block stored under a digest, if any.
    pub fn get(&self, hash: &crate::models::Hash) -> (r: Option<ContentBlock>)
        requires
            self.wf(),
        ensures
            match r {
                Some(b) => self.as_map().contains_key(hash@) && b@ == self.as_map()[hash@]
                    && wf_block(b@),
                None => !self.as_map().contains_key(hash@),
            },
    {
        match self.find_hash(hash) {
            Some(i) => {
                proof {
                    lemma_blob_map_index(self.entries@, i as int);
                }
                Some(self.entries[i].block.clone())
            }
            None => {
                proof {
                    if self.as_map().contains_key(hash@) {
                        let j = choose|j: int|
                            0 <= j < self.entries@.len() && self.entries@[j].hash@ == hash@;
                    }
                }
                None
            }
        }
    }
}

/// The content address of a block: the digest the store files it under.
pub fn content_block_hash(block: &ContentBlock) -> (r: crate::models::Hash)
    requires
        wf_block(block@),
    ensures
        r@ == blake3_of(enc_block(block@)),
        r.wf(),
{
    let encoded = encode_content_block(block);
    hash_bytes(&encoded)
}


} // verus!
