//! Big-endian integer encoding and the CRC-32 checksum used on the wire.

use byteorder::{ByteOrder, NetworkEndian};
use flate2::Crc;
use vstd::prelude::*;

verus! {

/// The big-endian value of the two bytes `s[0], s[1]`.
pub open spec fn u16_from_be(s: Seq<u8>) -> u16 {
    ((s[0] as u16) << 8u16) | (s[1] as u16)
}

/// The two bytes of `v` in big-endian (network) order.
pub open spec fn u16_be_bytes(v: u16) -> Seq<u8> {
    seq![((v >> 8u16) & 0xffu16) as u8, (v & 0xffu16) as u8]
}

/// The big-endian value of the four bytes `s[0..4]`.
pub open spec fn u32_from_be(s: Seq<u8>) -> u32 {
    ((s[0] as u32) << 24u32) | ((s[1] as u32) << 16u32) | ((s[2] as u32) << 8u32) | (s[3] as u32)
}

/// The four bytes of `v` in big-endian (network) order.
pub open spec fn u32_be_bytes(v: u32) -> Seq<u8> {
    seq![
        ((v >> 24u32) & 0xffu32) as u8,
        ((v >> 16u32) & 0xffu32) as u8,
        ((v >> 8u32) & 0xffu32) as u8,
        (v & 0xffu32) as u8,
    ]
}

/// Decoding the encoding of a 16-bit value gives the value back.
pub proof fn lemma_u16_be_roundtrip(v: u16)
    ensures
        u16_from_be(u16_be_bytes(v)) == v,
        u16_be_bytes(v).len() == 2,
{
    let b0 = ((v >> 8u16) & 0xffu16) as u8;
    let b1 = (v & 0xffu16) as u8;
    assert(((b0 as u16) << 8u16) | (b1 as u16) == v) by (bit_vector)
        requires
            b0 == ((v >> 8u16) & 0xffu16) as u8,
            b1 == (v & 0xffu16) as u8,
    ;
}

/// Decoding the encoding of a 32-bit value gives the value back.
pub proof fn lemma_u32_be_roundtrip(v: u32)
    ensures
        u32_from_be(u32_be_bytes(v)) == v,
        u32_be_bytes(v).len() == 4,
{
    let b0 = ((v >> 24u32) & 0xffu32) as u8;
    let b1 = ((v >> 16u32) & 0xffu32) as u8;
    let b2 = ((v >> 8u32) & 0xffu32) as u8;
    let b3 = (v & 0xffu32) as u8;
    assert(((b0 as u32) << 24u32) | ((b1 as u32) << 16u32) | ((b2 as u32) << 8u32) | (b3 as u32)
        == v) by (bit_vector)
        requires
            b0 == ((v >> 24u32) & 0xffu32) as u8,
            b1 == ((v >> 16u32) & 0xffu32) as u8,
            b2 == ((v >> 8u32) & 0xffu32) as u8,
            b3 == (v & 0xffu32) as u8,
    ;
}

/// Reads a big-endian `u16` from the front of `buf`.
///
/// Calls `byteorder::NetworkEndian::read_u16`, which is claimed to return the
/// big-endian value of the first two bytes (it panics on shorter input, which
/// `requires` rules out).
#[verifier::external_body]
pub(crate) fn read_u16_be(buf: &[u8]) -> (v: u16)
    requires
        buf@.len() >= 2,
    ensures
        v == u16_from_be(buf@),
{
    NetworkEndian::read_u16(buf)
}

/// Reads a big-endian `u32` from the front of `buf`.
///
/// Calls `byteorder::NetworkEndian::read_u32`, which is claimed to return the
/// big-endian value of the first four bytes (it panics on shorter input, which
/// `requires` rules out).
#[verifier::external_body]
pub(crate) fn read_u32_be(buf: &[u8]) -> (v: u32)
    requires
        buf@.len() >= 4,
    ensures
        v == u32_from_be(buf@),
{
    NetworkEndian::read_u32(buf)
}

/// Encodes `v` in big-endian order.
///
/// Calls `byteorder::NetworkEndian::write_u16` on a two-byte buffer, which is
/// claimed to store the big-endian bytes of `v` there.
#[verifier::external_body]
pub(crate) fn u16_to_be(v: u16) -> (b: [u8; 2])
    ensures
        b@ == u16_be_bytes(v),
{
    let mut b = [0u8; 2];
    NetworkEndian::write_u16(&mut b, v);
    b
}

/// Encodes `v` in big-endian order.
///
/// Calls `byteorder::NetworkEndian::write_u32` on a four-byte buffer, which is
/// claimed to store the big-endian bytes of `v` there.
#[verifier::external_body]
pub(crate) fn u32_to_be(v: u32) -> (b: [u8; 4])
    ensures
        b@ == u32_be_bytes(v),
{
    let mut b = [0u8; 4];
    NetworkEndian::write_u32(&mut b, v);
    b
}

/// The CRC-32 checksum of a byte sequence, as computed by `flate2::Crc`.
pub uninterp spec fn crc32_of(data: Seq<u8>) -> u32;

/// Computes the CRC-32 checksum of `data`.
///
/// Calls `flate2::Crc::new`, `update` and `sum`; the result is claimed to be a
/// function of the bytes alone, named `crc32_of`.
#[verifier::external_body]
pub(crate) fn crc32(data: &[u8]) -> (sum: u32)
    ensures
        sum == crc32_of(data@),
{
    let mut crc = Crc::new();
    crc.update(data);
    crc.sum()
}

/// Appends the big-endian bytes of `v` to `out`.
pub fn put_u16_be(out: &mut Vec<u8>, v: u16)
    ensures
        final(out)@ == old(out)@ + u16_be_bytes(v),
{
    let b = u16_to_be(v);
    out.push(b[0]);
    out.push(b[1]);
    assert(out@ =~= old(out)@ + u16_be_bytes(v));
}

/// Appends the big-endian bytes of `v` to `out`.
pub fn put_u32_be(out: &mut Vec<u8>, v: u32)
    ensures
        final(out)@ == old(out)@ + u32_be_bytes(v),
{
    let b = u32_to_be(v);
    out.push(b[0]);
    out.push(b[1]);
    out.push(b[2]);
    out.push(b[3]);
    assert(out@ =~= old(out)@ + u32_be_bytes(v));
}

/// Appends `data` to `out`.
pub fn put_bytes(out: &mut Vec<u8>, data: &[u8])
    ensures
        final(out)@ == old(out)@ + data@,
{
    let ghost start = out@;
    let mut i: usize = 0;
    while i < data.len()
        invariant
            i <= data@.len(),
            out@ == start + data@.take(i as int),
        decreases data@.len() - i,
    {
        out.push(data[i]);
        i = i + 1;
        assert(out@ =~= start + data@.take(i as int));
    }
    assert(data@.take(data@.len() as int) =~= data@);
}

} // verus!
