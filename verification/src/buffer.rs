//! Payloads: the shared byte buffers of the `bytes` crate and what they hold.

use bytes::Bytes;
use vstd::prelude::*;

verus! {

/// A cheaply cloneable, immutable byte buffer.
#[verifier::external_type_specification]
#[verifier::external_body]
pub struct ExBytes(bytes::Bytes);

/// The bytes that a buffer holds.
pub uninterp spec fn bytes_contents(b: Bytes) -> Seq<u8>;

/// `Bytes::new`: the result holds nothing.
#[verifier::external_body]
pub(crate) fn bytes_new() -> (b: Bytes)
    ensures
        bytes_contents(b) == Seq::<u8>::empty(),
{
    Bytes::new()
}

/// `Bytes::copy_from_slice`: the result holds a copy of `data`.
#[verifier::external_body]
pub(crate) fn bytes_copy_from_slice(data: &[u8]) -> (b: Bytes)
    ensures
        bytes_contents(b) == data@,
{
    Bytes::copy_from_slice(data)
}

/// `Bytes::from` on a vector: the result holds what the vector held.
#[verifier::external_body]
pub(crate) fn bytes_from_vec(data: Vec<u8>) -> (b: Bytes)
    ensures
        bytes_contents(b) == data@,
{
    Bytes::from(data)
}

/// `Bytes::clone`: both buffers hold the same bytes.
pub assume_specification[ <Bytes as Clone>::clone ](b: &Bytes) -> (c: Bytes)
    ensures
        bytes_contents(c) == bytes_contents(*b),
;

/// `Bytes::as_ref`: a view of the bytes held.
#[verifier::external_body]
pub(crate) fn bytes_as_slice(b: &Bytes) -> (s: &[u8])
    ensures
        s@ == bytes_contents(*b),
{
    b.as_ref()
}

} // verus!
