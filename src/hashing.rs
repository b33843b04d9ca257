//! The content digest.
use vstd::prelude::*;
use crate::record::FileHash;

verus! {

/// The SHA-256 digest of a byte sequence.
pub uninterp spec fn sha256(data: Seq<u8>) -> Seq<u8>;

/// Relies on ring::digest::digest with SHA-256: 32 bytes that depend on the
/// data alone; ring refuses inputs of 2^61 bytes or more.
#[verifier::external_body]
pub fn get_hash(data: &[u8]) -> (r: FileHash)
    requires
        data@.len() < 0x2000_0000_0000_0000,
    ensures
        r@ == sha256(data@),
{
    let digest = ring::digest::digest(&ring::digest::SHA256, data);
    let mut out = [0u8; 32];
    out.copy_from_slice(digest.as_ref());
    out
}

} // verus!
