//! Content identifiers: version-1, multihash-based keys for immutable
//! blocks. Leaf chunks use the raw-bytes codec, root descriptors the
//! DAG descriptor codec; the hash function is SHA-256 throughout.
//! The identifier is held as its canonical byte encoding, which is also
//! the raw key under which a block is routed and stored.

use multihash_codetable::MultihashDigest;
use vstd::prelude::*;

verus! {

/// Codec tag for raw leaf blocks.
pub const RAW_CODEC: u64 = 0x55;

/// Codec tag for DAG descriptor (root) blocks.
pub const DAG_CBOR: u64 = 0x71;

/// The canonical byte encoding of the version-1 content identifier that
/// the `cid` crate computes from a codec tag and the SHA-256 digest of a
/// payload. It depends on the codec and the payload bytes alone.
pub uninterp spec fn cid_data_of(codec: u64, data: Seq<u8>) -> Seq<u8>;

/// A content identifier, held as its canonical byte encoding.
#[derive(Clone, Debug)]
pub struct BlockCid {
    bytes: Vec<u8>,
}

impl View for BlockCid {
    type V = Seq<u8>;

    closed spec fn view(&self) -> Seq<u8> {
        self.bytes@
    }
}

/// Relies on `cid::Cid::new_v1`, `multihash_codetable::Code::Sha2_256.digest`
/// and `cid::Cid::to_bytes`: together they compute the canonical byte
/// encoding of the version-1 CID for `codec` over the SHA-256 digest of
/// `data`, a function of the two arguments alone. The encoding is two
/// version and codec varints of at most ten bytes each, then the
/// multihash: two more varints and a digest of at most 64 bytes, so it
/// stays well under 256 bytes.
#[verifier::external_body]
fn cid_bytes_for(codec: u64, data: &[u8]) -> (r: Vec<u8>)
    ensures
        r@ == cid_data_of(codec, data@),
        r@.len() < 256,
{
    cid::Cid::new_v1(codec, multihash_codetable::Code::Sha2_256.digest(data)).to_bytes()
}

impl BlockCid {
    /// Computes the content identifier for `data` under the given codec
    /// tag: the SHA-256 digest of `data`, wrapped as a version-1 CID.
    pub fn for_data(codec: u64, data: &[u8]) -> (r: BlockCid)
        ensures
            r@ == cid_data_of(codec, data@),
            r@.len() < 256,
    {
        BlockCid { bytes: cid_bytes_for(codec, data) }
    }

    /// The canonical byte encoding of this identifier.
    pub fn to_bytes(&self) -> (r: Vec<u8>)
        ensures
            r@ == self@,
    {
        let mut out: Vec<u8> = Vec::new();
        let mut i: usize = 0;
        while i < self.bytes.len()
            invariant
                i <= self.bytes.len(),
                out@ == self.bytes@.take(i as int),
            decreases self.bytes.len() - i,
        {
            out.push(self.bytes[i]);
            i = i + 1;
        }
        proof {
            assert(out@ == self@);
        }
        out
    }

    /// Determinism: hashing identical bytes under the same codec twice
    /// yields identical identifiers.
    pub proof fn lemma_cid_deterministic(codec: u64, a: Seq<u8>, b: Seq<u8>)
        requires
            a == b,
        ensures
            cid_data_of(codec, a) == cid_data_of(codec, b),
    {
    }

    /// Wraps already-encoded identifier bytes.
    pub fn from_bytes(bytes: Vec<u8>) -> (r: BlockCid)
        ensures
            r@ == bytes@,
    {
        BlockCid { bytes }
    }
}

} // verus!
