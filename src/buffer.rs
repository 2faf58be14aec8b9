//! The byte sink and byte source that the codec writes to and reads from:
//! `bytes::BytesMut` and `bytes::Bytes`, reached through the small set of
//! calls below.
use bytes::{Buf, BufMut, Bytes, BytesMut, TryGetError};
use vstd::prelude::*;

verus! {

#[verifier::external_type_specification]
#[verifier::external_body]
pub struct ExBytesMut(BytesMut);

#[verifier::external_type_specification]
#[verifier::external_body]
pub struct ExBytes(Bytes);

#[verifier::external_type_specification]
#[verifier::external_body]
pub struct ExTryGetError(TryGetError);

/// The bytes that a sink holds.
pub uninterp spec fn sink_bytes(b: BytesMut) -> Seq<u8>;

/// The bytes of a source that have not been read yet.
pub uninterp spec fn source_bytes(b: Bytes) -> Seq<u8>;

/// The most bytes that a sink is asked to hold. A `BytesMut` grows by
/// doubling its allocation, which std refuses past `isize::MAX` bytes.
pub open spec fn max_sink_len() -> int {
    isize::MAX / 2
}

/// The four bytes of `v`, most significant first.
pub open spec fn be_u32(v: u32) -> Seq<u8> {
    seq![
        ((v >> 24u32) & 0xffu32) as u8,
        ((v >> 16u32) & 0xffu32) as u8,
        ((v >> 8u32) & 0xffu32) as u8,
        (v & 0xffu32) as u8,
    ]
}

/// The integer whose big-endian bytes are the first four of `s`.
pub open spec fn u32_from_be(s: Seq<u8>) -> u32 {
    ((s[0] as u32) << 24u32) | ((s[1] as u32) << 16u32) | ((s[2] as u32) << 8u32) | (s[3] as u32)
}

/// Reading back the big-endian bytes of `v` gives `v`.
pub proof fn lemma_u32_from_be(v: u32)
    ensures
        u32_from_be(be_u32(v)) == v,
{
    let b0 = (v >> 24u32) & 0xffu32;
    let b1 = (v >> 16u32) & 0xffu32;
    let b2 = (v >> 8u32) & 0xffu32;
    let b3 = v & 0xffu32;
    assert(b0 < 256 && b1 < 256 && b2 < 256 && b3 < 256) by (bit_vector)
        requires
            b0 == (v >> 24u32) & 0xffu32,
            b1 == (v >> 16u32) & 0xffu32,
            b2 == (v >> 8u32) & 0xffu32,
            b3 == v & 0xffu32,
    ;
    assert(v == (b0 << 24u32) | (b1 << 16u32) | (b2 << 8u32) | b3) by (bit_vector)
        requires
            b0 == (v >> 24u32) & 0xffu32,
            b1 == (v >> 16u32) & 0xffu32,
            b2 == (v >> 8u32) & 0xffu32,
            b3 == v & 0xffu32,
    ;
}

/// Relies on `BytesMut::new`: the new buffer is empty.
#[verifier::external_body]
pub(crate) fn new_sink() -> (r: BytesMut)
    ensures
        sink_bytes(r) == Seq::<u8>::empty(),
{
    BytesMut::new()
}

/// Relies on `BufMut::put_u8` for `BytesMut`: the byte is appended, and the
/// buffer grows as needed.
#[verifier::external_body]
pub(crate) fn put_u8(buf: &mut BytesMut, n: u8)
    requires
        sink_bytes(*old(buf)).len() + 1 <= max_sink_len(),
    ensures
        sink_bytes(*final(buf)) == sink_bytes(*old(buf)).push(n),
{
    buf.put_u8(n)
}

/// Relies on `BufMut::put_u32` for `BytesMut`: the four bytes of `n` are
/// appended in big-endian order.
#[verifier::external_body]
pub(crate) fn put_u32(buf: &mut BytesMut, n: u32)
    requires
        sink_bytes(*old(buf)).len() + 4 <= max_sink_len(),
    ensures
        sink_bytes(*final(buf)) == sink_bytes(*old(buf)) + be_u32(n),
{
    buf.put_u32(n)
}

/// Relies on `BufMut::put_slice` for `BytesMut`: the bytes of `src` are
/// appended in order.
#[verifier::external_body]
pub(crate) fn put_slice(buf: &mut BytesMut, src: &[u8])
    requires
        sink_bytes(*old(buf)).len() + src@.len() <= max_sink_len(),
    ensures
        sink_bytes(*final(buf)) == sink_bytes(*old(buf)) + src@,
{
    buf.put_slice(src)
}

/// Relies on `From<BytesMut> for Vec<u8>`: the vector holds the same bytes.
#[verifier::external_body]
pub(crate) fn sink_into_vec(buf: BytesMut) -> (r: Vec<u8>)
    ensures
        r@ == sink_bytes(buf),
{
    Vec::from(buf)
}

/// Relies on `Bytes::copy_from_slice`: the new source holds a copy of `data`.
#[verifier::external_body]
pub(crate) fn source_from_slice(data: &[u8]) -> (r: Bytes)
    ensures
        source_bytes(r) == data@,
{
    Bytes::copy_from_slice(data)
}

/// Relies on `Buf::try_get_u8` for `Bytes`: it reads the first byte, or fails
/// and reads nothing when the source is empty.
#[verifier::external_body]
pub(crate) fn try_get_u8(buf: &mut Bytes) -> (r: Result<u8, TryGetError>)
    ensures
        match r {
            Ok(b) => {
                &&& source_bytes(*old(buf)).len() >= 1
                &&& b == source_bytes(*old(buf))[0]
                &&& source_bytes(*final(buf)) == source_bytes(*old(buf)).drop_first()
            },
            Err(_) => {
                &&& source_bytes(*old(buf)).len() < 1
                &&& source_bytes(*final(buf)) == source_bytes(*old(buf))
            },
        },
{
    buf.try_get_u8()
}

/// Relies on `Buf::try_get_u32` for `Bytes`: it reads four bytes as a
/// big-endian integer, or fails and reads nothing when fewer remain.
#[verifier::external_body]
pub(crate) fn try_get_u32(buf: &mut Bytes) -> (r: Result<u32, TryGetError>)
    ensures
        match r {
            Ok(v) => {
                &&& source_bytes(*old(buf)).len() >= 4
                &&& be_u32(v) == source_bytes(*old(buf)).take(4)
                &&& source_bytes(*final(buf)) == source_bytes(*old(buf)).skip(4)
            },
            Err(_) => {
                &&& source_bytes(*old(buf)).len() < 4
                &&& source_bytes(*final(buf)) == source_bytes(*old(buf))
            },
        },
{
    buf.try_get_u32()
}

/// Relies on `Buf::try_copy_to_slice` for `Bytes`: it fills `dst` with the
/// next bytes, or fails and touches nothing when fewer than `N` remain.
#[verifier::external_body]
pub(crate) fn try_fill<const N: usize>(buf: &mut Bytes, dst: &mut [u8; N]) -> (r: Result<
    (),
    TryGetError,
>)
    ensures
        match r {
            Ok(_) => {
                &&& source_bytes(*old(buf)).len() >= N
                &&& final(dst)@ == source_bytes(*old(buf)).take(N as int)
                &&& source_bytes(*final(buf)) == source_bytes(*old(buf)).skip(N as int)
            },
            Err(_) => {
                &&& source_bytes(*old(buf)).len() < N
                &&& source_bytes(*final(buf)) == source_bytes(*old(buf))
                &&& *final(dst) == *old(dst)
            },
        },
{
    buf.try_copy_to_slice(dst)
}

} // verus!
