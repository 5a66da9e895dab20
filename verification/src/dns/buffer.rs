//! The growable output buffer that the encoders fill.
//!
//! The buffer is `bytes::BytesMut`. Verus does not look inside it: what it
//! holds is named by [`buf_bytes`], and each operation the encoders use is a
//! small function whose contract is taken on trust from the `bytes` crate.

use bytes::{BufMut, BytesMut};
use vstd::prelude::*;

verus! {

/// `bytes::BytesMut`, carried through verified code as an opaque value.
#[verifier::external_type_specification]
#[verifier::external_body]
pub struct ExBytesMut(BytesMut);

/// The bytes that a buffer holds, first written first.
pub uninterp spec fn buf_bytes(buf: BytesMut) -> Seq<u8>;

/// Whether a buffer can hold the bytes: `BytesMut` holds at most `isize::MAX`.
pub open spec fn fits(bytes: Seq<u8>) -> bool {
    bytes.len() <= isize::MAX
}

/// The big-endian bytes of a 16-bit number.
pub open spec fn be16(n: u16) -> Seq<u8> {
    seq![(n / 256) as u8, (n % 256) as u8]
}

/// The big-endian bytes of a 32-bit number.
pub open spec fn be32(n: u32) -> Seq<u8> {
    seq![
        (n / 0x100_0000) as u8,
        (n / 0x1_0000 % 256) as u8,
        (n / 0x100 % 256) as u8,
        (n % 256) as u8,
    ]
}

/// The 16-bit number whose big-endian bytes are `hi`, `lo`.
pub open spec fn word16(hi: u8, lo: u8) -> u16 {
    (hi * 256 + lo) as u16
}

/// The 32-bit number whose big-endian bytes are `b0`, `b1`, `b2`, `b3`.
pub open spec fn word32(b0: u8, b1: u8, b2: u8, b3: u8) -> u32 {
    (b0 * 0x100_0000 + b1 * 0x1_0000 + b2 * 0x100 + b3) as u32
}

/// Reads the big-endian 16-bit number at `at`.
pub fn read_u16(data: &[u8], at: usize) -> (n: u16)
    requires
        at + 2 <= data@.len(),
    ensures
        n == word16(data@[at as int], data@[at + 1]),
{
    data[at] as u16 * 256 + data[at + 1] as u16
}

/// Reads the big-endian 32-bit number at `at`.
pub fn read_u32(data: &[u8], at: usize) -> (n: u32)
    requires
        at + 4 <= data@.len(),
    ensures
        n == word32(data@[at as int], data@[at + 1], data@[at + 2], data@[at + 3]),
{
    data[at] as u32 * 0x100_0000 + data[at + 1] as u32 * 0x1_0000 + data[at + 2] as u32 * 0x100
        + data[at + 3] as u32
}

/// `BytesMut::new`: a buffer that holds nothing.
#[verifier::external_body]
pub(crate) fn new_buf() -> (buf: BytesMut)
    ensures
        buf_bytes(buf) == Seq::<u8>::empty(),
{
    BytesMut::new()
}

/// `BufMut::put_u8` on a `BytesMut`: appends the byte. The crate documents a
/// panic when fewer than one byte of `isize::MAX - len` remains, so the
/// contract asks for room.
#[verifier::external_body]
pub(crate) fn put_u8(buf: &mut BytesMut, n: u8)
    requires
        buf_bytes(*old(buf)).len() + 1 <= isize::MAX,
    ensures
        buf_bytes(*final(buf)) == buf_bytes(*old(buf)).push(n),
{
    buf.put_u8(n)
}

/// `BufMut::put_u16` on a `BytesMut`: appends the two bytes of `n`, most
/// significant first. Room is asked for as in [`put_u8`].
#[verifier::external_body]
pub(crate) fn put_u16(buf: &mut BytesMut, n: u16)
    requires
        buf_bytes(*old(buf)).len() + 2 <= isize::MAX,
    ensures
        buf_bytes(*final(buf)) == buf_bytes(*old(buf)) + be16(n),
{
    buf.put_u16(n)
}

/// `BufMut::put_u32` on a `BytesMut`: appends the four bytes of `n`, most
/// significant first. Room is asked for as in [`put_u8`].
#[verifier::external_body]
pub(crate) fn put_u32(buf: &mut BytesMut, n: u32)
    requires
        buf_bytes(*old(buf)).len() + 4 <= isize::MAX,
    ensures
        buf_bytes(*final(buf)) == buf_bytes(*old(buf)) + be32(n),
{
    buf.put_u32(n)
}

/// `BufMut::put_slice` on a `BytesMut`: appends the bytes of `src` in order.
/// Room is asked for as in [`put_u8`].
#[verifier::external_body]
pub(crate) fn put_slice(buf: &mut BytesMut, src: &[u8])
    requires
        buf_bytes(*old(buf)).len() + src@.len() <= isize::MAX,
    ensures
        buf_bytes(*final(buf)) == buf_bytes(*old(buf)) + src@,
{
    buf.put_slice(src)
}

/// `BufMut::put` on a `BytesMut`, with another `BytesMut` as the source:
/// appends all that the source holds. Room is asked for as in [`put_u8`].
#[verifier::external_body]
pub(crate) fn put_buf(buf: &mut BytesMut, src: BytesMut)
    requires
        buf_bytes(*old(buf)).len() + buf_bytes(src).len() <= isize::MAX,
    ensures
        buf_bytes(*final(buf)) == buf_bytes(*old(buf)) + buf_bytes(src),
{
    buf.put(src)
}

} // verus!
