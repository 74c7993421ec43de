//! Payload bytes: the reference-counted buffer type of the `bytes` crate, and what the library trusts
//! about it.

use bytes::Bytes;
use vstd::prelude::*;

verus! {

/// `bytes::Bytes`, an immutable, cheaply cloneable byte buffer. It is opaque here: what it holds is
/// named by [`contents`].
#[verifier::external_type_specification]
#[verifier::external_body]
pub struct ExBytes(bytes::Bytes);

/// The bytes a buffer holds, in order. A `Bytes` is immutable through a shared reference, so this is
/// fixed for the life of the value.
pub uninterp spec fn contents(buffer: bytes::Bytes) -> Seq<u8>;

/// `Bytes::copy_from_slice`: a fresh buffer holding exactly the bytes of `data`.
#[verifier::external_body]
pub(crate) fn copy_from_slice(data: &[u8]) -> (buffer: Bytes)
    ensures
        contents(buffer) == data@,
{
    Bytes::copy_from_slice(data)
}

/// `<Bytes as AsRef<[u8]>>::as_ref`: the bytes the buffer holds, borrowed.
#[verifier::external_body]
pub(crate) fn as_slice(buffer: &Bytes) -> (data: &[u8])
    ensures
        data@ == contents(*buffer),
{
    buffer.as_ref()
}

/// `<Bytes as Clone>::clone`: another handle on the same bytes.
pub assume_specification[ <Bytes as Clone>::clone ](buffer: &Bytes) -> (copy: Bytes)
    ensures
        contents(copy) == contents(*buffer),
;

} // verus!
