//! Content addresses of headers and blocks: the BLAKE2b-256 digest of the
//! header's encoding.
use vstd::prelude::*;
use crate::records::{ser_header, header_to_bytes};
use crate::types::{Block, BlockHeader, Tip};

verus! {

/// The 32-byte BLAKE2b digest of `data`.
pub uninterp spec fn blake2b_256(data: Seq<u8>) -> Seq<u8>;

/// Relies on blake2b_simd's `Params` with a 32-byte output: the digest of
/// the input bytes, which depends on them alone.
#[verifier::external_body]
fn blake2b_32(data: &[u8]) -> (r: [u8; 32])
    ensures
        r@ == blake2b_256(data@),
{
    let digest = blake2b_simd::Params::new().hash_length(32).hash(data);
    let mut out = [0u8; 32];
    out.copy_from_slice(digest.as_bytes());
    out
}

/// The address of a header: the digest of its encoding.
pub open spec fn header_hash(h: BlockHeader) -> Seq<u8> {
    blake2b_256(ser_header(h))
}

impl BlockHeader {
    pub fn hash(&self) -> (r: crate::types::Hash)
        ensures
            r.0@ == header_hash(*self),
    {
        let bytes = header_to_bytes(self);
        crate::types::Hash(blake2b_32(bytes.as_slice()))
    }
}

impl Block {
    /// A block has its header's address.
    pub fn hash(&self) -> (r: crate::types::Hash)
        ensures
            r.0@ == header_hash(self.header),
    {
        self.header.hash()
    }
}

impl Tip {
    /// The summary of the chain that ends at `h`.
    pub fn from_header(h: &BlockHeader) -> (r: Tip)
        ensures
            r.last_block_h.0@ == header_hash(*h),
            r.prev_block_h == h.prev_hash,
            r.height == h.height,
            r.total_difficulty == h.total_difficulty,
    {
        Tip {
            last_block_h: h.hash(),
            prev_block_h: h.prev_hash,
            height: h.height,
            total_difficulty: h.total_difficulty,
        }
    }
}

} // verus!
