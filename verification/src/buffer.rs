//! Trusted view of the `ownedbytes` byte buffer.
//!
//! Readers own their backing bytes through `ownedbytes::OwnedBytes`, a
//! cheaply sliceable, reference-counted byte container.  The buffer is
//! opaque to the verifier; `ob_bytes` names its contents, and each method
//! the library calls is wrapped with a contract over that name.

use vstd::prelude::*;
use ownedbytes::OwnedBytes;

verus! {

#[verifier::external_type_specification]
#[verifier::external_body]
pub struct ExOwnedBytes(OwnedBytes);

/// The bytes that an `OwnedBytes` buffer holds.
pub uninterp spec fn ob_bytes(b: OwnedBytes) -> Seq<u8>;

/// Relies on OwnedBytes::new: the buffer holds exactly the bytes of the
/// vector it was built from.
#[verifier::external_body]
pub fn ob_new(v: Vec<u8>) -> (r: OwnedBytes)
    ensures
        ob_bytes(r) == v@,
{
    OwnedBytes::new(v)
}

/// Relies on OwnedBytes::len: the length of the underlying slice.
#[verifier::external_body]
pub fn ob_len(b: &OwnedBytes) -> (r: usize)
    ensures
        r == ob_bytes(*b).len(),
{
    b.len()
}

/// Relies on OwnedBytes::as_slice: the buffer dereferences to its
/// underlying slice, indexed here at a position inside it.
#[verifier::external_body]
pub fn ob_byte(b: &OwnedBytes, i: usize) -> (r: u8)
    requires
        i < ob_bytes(*b).len(),
    ensures
        r == ob_bytes(*b)[i as int],
{
    b.as_slice()[i]
}

/// Relies on OwnedBytes::slice: a sub-buffer holding the bytes of the
/// given in-bounds range, sharing the same backing allocation.
#[verifier::external_body]
pub fn ob_slice(b: &OwnedBytes, start: usize, end: usize) -> (r: OwnedBytes)
    requires
        start <= end <= ob_bytes(*b).len(),
    ensures
        ob_bytes(r) == ob_bytes(*b).subrange(start as int, end as int),
{
    b.slice(start..end)
}

} // verus!
