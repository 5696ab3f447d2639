//! Immutable byte payloads: a blob's data, or the mapping a base is served
//! from.

use vstd::prelude::*;

verus! {

/// `bytes::Bytes`: a cheaply cloneable slice of memory, on the heap or mapped.
#[verifier::external_type_specification]
#[verifier::external_body]
pub struct ExBytes(bytes::Bytes);

/// The bytes a payload holds, in order.
pub uninterp spec fn payload_content(b: bytes::Bytes) -> Seq<u8>;

/// `Bytes::from(Vec<u8>)`: a payload of the bytes of `v`.
#[verifier::external_body]
fn bytes_from_vec(v: Vec<u8>) -> (b: bytes::Bytes)
    ensures
        payload_content(b) == v@,
{
    bytes::Bytes::from(v)
}

/// `Bytes::as_ref`: the bytes of the payload.
#[verifier::external_body]
fn bytes_as_slice(b: &bytes::Bytes) -> (s: &[u8])
    ensures
        s@ == payload_content(*b),
{
    b.as_ref()
}

/// `Bytes::clone`: a payload of the same bytes.
#[verifier::external_body]
fn bytes_clone(b: &bytes::Bytes) -> (c: bytes::Bytes)
    ensures
        payload_content(c) == payload_content(*b),
{
    b.clone()
}

/// A payload of the bytes of `v`.
pub fn freeze(v: Vec<u8>) -> (b: bytes::Bytes)
    ensures
        payload_content(b) == v@,
{
    bytes_from_vec(v)
}

/// The bytes of a payload.
pub fn slice_of(b: &bytes::Bytes) -> (s: &[u8])
    ensures
        s@ == payload_content(*b),
{
    bytes_as_slice(b)
}

/// Another handle on the same bytes.
pub fn share(b: &bytes::Bytes) -> (c: bytes::Bytes)
    ensures
        payload_content(c) == payload_content(*b),
{
    bytes_clone(b)
}

} // verus!
