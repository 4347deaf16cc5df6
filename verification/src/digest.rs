//! Content digests. Both filtering phases of the pipeline fingerprint file
//! contents with the same cryptographic hash; the partial phase hashes only
//! a fixed-size prefix so that files that differ early are separated
//! without a full read.

use vstd::prelude::*;

verus! {

/// How many leading bytes the partial phase hashes (8 KiB). Files shorter
/// than this are hashed over their full, shorter content.
pub const PARTIAL_HASH_SIZE: usize = 8192;

/// The digest that the hash function assigns to a byte sequence. The
/// function is fixed and deterministic, so equal inputs always yield equal
/// digests; nothing further is assumed about its values.
pub uninterp spec fn content_fingerprint(data: Seq<u8>) -> Seq<u8>;

/// A fixed-width content fingerprint, held as its raw bytes.
#[derive(Debug)]
pub struct Digest {
    pub bytes: Vec<u8>,
}

impl View for Digest {
    type V = Seq<u8>;

    open spec fn view(&self) -> Seq<u8> {
        self.bytes@
    }
}

impl Clone for Digest {
    /// The copy carries the same fingerprint bytes.
    fn clone(&self) -> (r: Self)
        ensures
            r@ == self@,
    {
        let mut bytes: Vec<u8> = Vec::new();
        let n = self.bytes.len();
        for i in 0..n
            invariant
                n == self.bytes@.len(),
                bytes@ =~= self.bytes@.take(i as int),
        {
            bytes.push(self.bytes[i]);
            proof {
                assert(bytes@ =~= self.bytes@.take(i + 1));
            }
        }
        proof {
            assert(self.bytes@.take(n as int) =~= self.bytes@);
        }
        Digest { bytes }
    }
}

/// Relies on `blake3::hash`: a pure function of the input bytes that always
/// returns a 32-byte digest.
#[verifier::external_body]
fn blake3_digest(data: &[u8]) -> (r: Digest)
    ensures
        r@ == content_fingerprint(data@),
        r@.len() == 32,
{
    Digest { bytes: blake3::hash(data).as_bytes().to_vec() }
}

/// The digest of a file's complete contents: the fingerprint the full phase
/// groups by.
pub fn content_digest(data: &[u8]) -> (r: Digest)
    ensures
        r@ == content_fingerprint(data@),
        r@.len() == 32,
{
    blake3_digest(data)
}

/// The prefix the partial phase fingerprints: the whole content when it is
/// short, otherwise only the first `PARTIAL_HASH_SIZE` bytes.
pub open spec fn partial_prefix(data: Seq<u8>) -> Seq<u8> {
    if data.len() <= PARTIAL_HASH_SIZE {
        data
    } else {
        data.take(PARTIAL_HASH_SIZE as int)
    }
}

/// The digest of a content prefix: the fingerprint the partial phase groups
/// by. Reading fewer than `PARTIAL_HASH_SIZE` bytes is not an error; short
/// files are fingerprinted over their full content.
pub fn partial_digest(data: &[u8]) -> (r: Digest)
    ensures
        r@ == content_fingerprint(partial_prefix(data@)),
        r@.len() == 32,
{
    if data.len() <= PARTIAL_HASH_SIZE {
        blake3_digest(data)
    } else {
        let prefix = vstd::slice::slice_subrange(data, 0, PARTIAL_HASH_SIZE);
        proof {
            assert(prefix@ =~= data@.take(PARTIAL_HASH_SIZE as int));
        }
        blake3_digest(prefix)
    }
}

/// Two digests are equal exactly when their bytes are equal.
pub fn digests_equal(a: &Digest, b: &Digest) -> (r: bool)
    ensures
        r == (a@ == b@),
{
    if a.bytes.len() != b.bytes.len() {
        proof {
            assert(a@ != b@);
        }
        return false;
    }
    let n = a.bytes.len();
    for i in 0..n
        invariant
            n == a.bytes@.len(),
            n == b.bytes@.len(),
            forall|k: int| #![trigger a.bytes@[k]] 0 <= k < i ==> a.bytes@[k] == b.bytes@[k],
    {
        if a.bytes[i] != b.bytes[i] {
            proof {
                assert(a@[i as int] != b@[i as int]);
            }
            return false;
        }
    }
    proof {
        assert(a@ =~= b@);
    }
    true
}

} // verus!
