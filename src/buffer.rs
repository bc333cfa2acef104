//! The receive buffer of the frame decoder, held in a `bytes::BytesMut`.

use vstd::prelude::*;

verus! {

/// `bytes::BytesMut`, opaque; what it holds is `buffer_bytes`.
#[verifier::external_type_specification]
#[verifier::external_body]
pub struct ExBytesMut(bytes::BytesMut);

/// The bytes that a buffer currently holds, front first.
pub uninterp spec fn buffer_bytes(b: bytes::BytesMut) -> Seq<u8>;

/// Relies on `BytesMut::new`: the new buffer holds no bytes.
#[verifier::external_body]
pub fn buffer_new() -> (r: bytes::BytesMut)
    ensures
        buffer_bytes(r) == Seq::<u8>::empty(),
{
    bytes::BytesMut::new()
}

/// Relies on `BytesMut::len`: the number of bytes held.
#[verifier::external_body]
pub fn buffer_len(b: &bytes::BytesMut) -> (r: usize)
    ensures
        r as int == buffer_bytes(*b).len(),
{
    b.len()
}

/// Relies on `BytesMut::extend_from_slice`: the bytes are appended at the back.
/// Growing past `isize::MAX` bytes would panic in `reserve`, hence the bound.
#[verifier::external_body]
pub fn buffer_extend(b: &mut bytes::BytesMut, data: &[u8])
    requires
        buffer_bytes(*old(b)).len() + data@.len() <= isize::MAX,
    ensures
        buffer_bytes(*final(b)) == buffer_bytes(*old(b)) + data@,
{
    b.extend_from_slice(data)
}

/// Relies on `<BytesMut as Buf>::advance`: drops `n` bytes from the front;
/// it panics when `n` exceeds the length, which `requires` rules out.
#[verifier::external_body]
pub fn buffer_advance(b: &mut bytes::BytesMut, n: usize)
    requires
        n <= buffer_bytes(*old(b)).len(),
    ensures
        buffer_bytes(*final(b)) == buffer_bytes(*old(b)).subrange(n as int, buffer_bytes(*old(b)).len() as int),
{
    bytes::Buf::advance(b, n)
}

/// Relies on indexing through `<BytesMut as Deref>::deref`: the byte at `i`.
#[verifier::external_body]
pub fn buffer_byte(b: &bytes::BytesMut, i: usize) -> (r: u8)
    requires
        i < buffer_bytes(*b).len(),
    ensures
        r == buffer_bytes(*b)[i as int],
{
    b[i]
}

} // verus!
