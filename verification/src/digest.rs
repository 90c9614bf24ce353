//! SHA-256 digests, as computed by `ring`.
use vstd::prelude::*;

verus! {

/// The SHA-256 digest of `data`.
pub uninterp spec fn spec_sha256(data: Seq<u8>) -> Seq<u8>;

/// `ring::digest::digest(&SHA256, data)`, copied into a vector. The contract
/// names the digest and states its length, 32 bytes, which `ring` documents as
/// the output length of SHA-256; nothing else about the digest is stated.
#[verifier::external_body]
pub(crate) fn sha256(data: &[u8]) -> (res: Vec<u8>)
    ensures
        res@ == spec_sha256(data@),
        res@.len() == 32,
{
    ring::digest::digest(&ring::digest::SHA256, data).as_ref().to_vec()
}

} // verus!
