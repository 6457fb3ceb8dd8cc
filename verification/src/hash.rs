//! Chunk identifiers.
//!
//! A chunk is identified by the first eight bytes of the MD5 digest of its
//! contents, read as a little-endian integer. Two byte strings with the same
//! identifier are treated as the same chunk; nothing guards against a
//! collision.

use vstd::bytes::{spec_u64_from_le_bytes, u64_from_le_bytes};
use vstd::prelude::*;
use vstd::slice::slice_subrange;

verus! {

/// The sixteen bytes of the MD5 digest of `data`, as `md5::compute` returns
/// them.
pub uninterp spec fn md5_digest(data: Seq<u8>) -> Seq<u8>;

/// Calls `md5::compute`. The digest is a function of the input bytes alone;
/// the contract gives it the name [`md5_digest`] and states nothing else about
/// it. Its length, sixteen, comes with the array type.
#[verifier::external_body]
fn md5_compute(data: &[u8]) -> (digest: [u8; 16])
    ensures
        digest@ == md5_digest(data@),
{
    md5::compute(data).0
}

/// The identifier of a chunk with contents `data`.
pub open spec fn spec_chunk_id(data: Seq<u8>) -> u64 {
    spec_u64_from_le_bytes(md5_digest(data).subrange(0, 8))
}

/// The identifier that the first eight bytes of a digest stand for.
pub fn id_from_digest(digest: &[u8; 16]) -> (id: u64)
    ensures
        id == spec_u64_from_le_bytes(digest@.subrange(0, 8)),
{
    let prefix = slice_subrange(digest.as_slice(), 0, 8);
    u64_from_le_bytes(prefix)
}

/// Computes the identifier of a chunk from its contents.
pub fn chunk_id(data: &[u8]) -> (id: u64)
    ensures
        id == spec_chunk_id(data@),
{
    let digest = md5_compute(data);
    id_from_digest(&digest)
}

} // verus!
