//! Byte buffers as the blob stores exchange them.

use bytes::Bytes;
use vstd::prelude::*;

verus! {

/// The shared byte buffer of the `bytes` crate.
#[verifier::external_type_specification]
#[verifier::external_body]
pub struct ExBytes(bytes::Bytes);

/// The bytes that a buffer holds.
pub uninterp spec fn bytes_of(buffer: bytes::Bytes) -> Seq<u8>;

/// `Bytes::from` on a vector: the buffer holds the vector's bytes.
#[verifier::external_body]
pub(crate) fn to_buffer(data: Vec<u8>) -> (buffer: Bytes)
    ensures
        bytes_of(buffer) == data@,
{
    Bytes::from(data)
}

/// `Bytes::to_vec`: a copy of what the buffer holds.
#[verifier::external_body]
pub(crate) fn to_vec(buffer: &Bytes) -> (data: Vec<u8>)
    ensures
        data@ == bytes_of(*buffer),
{
    buffer.to_vec()
}

/// `Bytes::clone`: another handle to the same bytes.
#[verifier::external_body]
pub(crate) fn share(buffer: &Bytes) -> (other: Bytes)
    ensures
        bytes_of(other) == bytes_of(*buffer),
{
    buffer.clone()
}

} // verus!
