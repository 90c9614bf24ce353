//! Shared byte buffers of the `bytes` crate.
use vstd::prelude::*;

verus! {

#[verifier::external_type_specification]
#[verifier::external_body]
pub struct ExBytes(bytes::Bytes);

/// The bytes that a `Bytes` buffer holds.
pub uninterp spec fn bytes_contents(b: bytes::Bytes) -> Seq<u8>;

/// `Bytes::copy_from_slice`: as the crate documents, a new buffer holding a
/// copy of `data`.
#[verifier::external_body]
pub(crate) fn bytes_copy_from_slice(data: &[u8]) -> (res: bytes::Bytes)
    ensures
        bytes_contents(res) == data@,
{
    bytes::Bytes::copy_from_slice(data)
}

} // verus!
