use vstd::prelude::*;

use bytes::{Buf, BytesMut};

verus! {

#[verifier::external_type_specification]
#[verifier::external_body]
pub struct ExBytesMut(bytes::BytesMut);

/// The bytes that a growable byte buffer holds, in order.
pub uninterp spec fn contents(b: BytesMut) -> Seq<u8>;

/// Relies on `BytesMut::new`: a buffer that holds nothing.
#[verifier::external_body]
pub(crate) fn buf_new() -> (r: BytesMut)
    ensures
        contents(r) == Seq::<u8>::empty(),
{
    BytesMut::new()
}

/// Relies on `BytesMut::extend_from_slice`: the bytes are added at the end.
#[verifier::external_body]
pub(crate) fn buf_extend(b: &mut BytesMut, data: &[u8])
    ensures
        contents(*final(b)) == contents(*old(b)) + data@,
{
    b.extend_from_slice(data)
}

/// Relies on `BytesMut`'s `Deref` to `[u8]`: a view of the bytes held.
#[verifier::external_body]
pub(crate) fn buf_bytes(b: &BytesMut) -> (r: &[u8])
    ensures
        r@ == contents(*b),
{
    &b[..]
}

/// Relies on `Buf::advance` for `BytesMut`: the first `n` bytes are dropped. It panics past
/// the end, which the `requires` rules out.
#[verifier::external_body]
pub(crate) fn buf_advance(b: &mut BytesMut, n: usize)
    requires
        n <= contents(*old(b)).len(),
    ensures
        contents(*final(b)) == contents(*old(b)).subrange(n as int, contents(*old(b)).len() as int),
{
    b.advance(n)
}

} // verus!
