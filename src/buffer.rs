//! The receive buffer: a `bytes::BytesMut` whose contents are named for proofs.
use bytes::{Buf, BytesMut};
use vstd::prelude::*;

verus! {

#[verifier::external_type_specification]
#[verifier::external_body]
pub struct ExBytesMut(BytesMut);

/// The bytes a buffer currently holds, front first.
pub uninterp spec fn contents(b: BytesMut) -> Seq<u8>;

/// Relies on `BytesMut::len`: the number of bytes held.
#[verifier::external_body]
pub(crate) fn buf_len(b: &BytesMut) -> (r: usize)
    ensures
        r == contents(*b).len(),
{
    b.len()
}

/// Relies on indexing through `BytesMut`'s `Deref<Target = [u8]>`.
#[verifier::external_body]
pub(crate) fn buf_at(b: &BytesMut, i: usize) -> (r: u8)
    requires
        i < contents(*b).len(),
    ensures
        r == contents(*b)[i as int],
{
    b[i]
}

/// Relies on `<BytesMut as Buf>::advance`: drops the first `n` bytes
/// (it panics when `n` exceeds the length, which `requires` rules out).
#[verifier::external_body]
pub(crate) fn buf_advance(b: &mut BytesMut, n: usize)
    requires
        n <= contents(*old(b)).len(),
    ensures
        contents(*final(b)) == contents(*old(b)).skip(n as int),
{
    b.advance(n)
}

} // verus!
