//! The `bytes::Bytes` buffers that carry the poison stream, as seen by the
//! verified code: the type is opaque, its contents are named by `bytes_view`,
//! and each method the escaper calls is a trusted wrapper stated over that name.

use bytes::Bytes;
use vstd::prelude::*;

verus! {

/// `bytes::Bytes`, carried through verified code as an opaque value.
#[verifier::external_type_specification]
#[verifier::external_body]
pub struct ExBytes(Bytes);

/// The bytes that a `Bytes` buffer holds, in order.
pub uninterp spec fn bytes_view(b: Bytes) -> Seq<u8>;

/// `<Bytes as Deref>::deref`: borrows the buffer's contents as a slice.
/// Claimed: the slice holds exactly the buffer's bytes.
#[verifier::external_body]
pub fn bytes_as_slice(b: &Bytes) -> (s: &[u8])
    ensures
        s@ == bytes_view(*b),
{
    b.as_ref()
}

/// `Bytes::split_off`: afterwards `b` holds `[0, at)` and the returned
/// buffer holds `[at, len)`. The source panics when `at > len`, so that
/// input is excluded.
#[verifier::external_body]
pub fn bytes_split_off(b: &mut Bytes, at: usize) -> (tail: Bytes)
    requires
        at <= bytes_view(*old(b)).len(),
    ensures
        bytes_view(*final(b)) == bytes_view(*old(b)).take(at as int),
        bytes_view(tail) == bytes_view(*old(b)).skip(at as int),
{
    b.split_off(at)
}

/// `Bytes::truncate`: keeps the first `len` bytes; no effect when `len` is
/// not less than the current length.
#[verifier::external_body]
pub fn bytes_truncate(b: &mut Bytes, len: usize)
    ensures
        bytes_view(*final(b)) == (if len < bytes_view(*old(b)).len() {
            bytes_view(*old(b)).take(len as int)
        } else {
            bytes_view(*old(b))
        }),
{
    b.truncate(len)
}

/// `<Bytes as From<&'static [u8]>>::from`, which is `Bytes::from_static`:
/// a buffer that holds exactly the given static bytes.
#[verifier::external_body]
pub fn bytes_from_static(s: &'static [u8]) -> (b: Bytes)
    ensures
        bytes_view(b) == s@,
{
    Bytes::from(s)
}

/// The contents of a sequence of buffers, one `Seq<u8>` per buffer.
pub open spec fn bytes_views(pieces: Seq<Bytes>) -> Seq<Seq<u8>> {
    pieces.map_values(|b: Bytes| bytes_view(b))
}

} // verus!
