//! Header bytes and big-endian integers of the wire format.
use vstd::prelude::*;

verus! {

/// The header byte made of a 3-bit major type and a 5-bit additional type.
pub open spec fn header_byte(major: u8, additional: u8) -> u8 {
    (major as int * 32 + additional as int) as u8
}

/// The big-endian value of the first two bytes of `b`.
pub open spec fn be16(b: Seq<u8>) -> nat {
    (b[0] as nat) * 256 + b[1] as nat
}

/// The big-endian value of the first four bytes of `b`.
pub open spec fn be32(b: Seq<u8>) -> nat {
    (((b[0] as nat) * 256 + b[1] as nat) * 256 + b[2] as nat) * 256 + b[3] as nat
}

/// The major type: the top three bits of a header byte.
pub fn major_type(header: u8) -> (r: u8)
    ensures
        r == header / 32,
        r < 8,
{
    let r = header >> 5u8;
    assert(r == header / 32 && r < 8) by (bit_vector)
        requires
            r == header >> 5u8,
    ;
    r
}

/// The additional type: the low five bits of a header byte.
pub fn additional_type(header: u8) -> (r: u8)
    ensures
        r == header % 32,
        header_byte(header / 32, r) == header,
{
    let r = header & 0x1fu8;
    assert(r == header % 32) by (bit_vector)
        requires
            r == header & 0x1fu8,
    ;
    r
}

/// Joins a major type and an additional type into one header byte.
pub fn make_header(major: u8, additional: u8) -> (r: u8)
    requires
        major < 8,
        additional < 32,
    ensures
        r == header_byte(major, additional),
        r / 32 == major,
        r % 32 == additional,
{
    let r = (major << 5u8) | additional;
    assert(r == major * 32 + additional) by (bit_vector)
        requires
            r == (major << 5u8) | additional,
            major < 8,
            additional < 32,
    ;
    r
}

/// Reads the first two bytes of `slice` as a big-endian 16-bit integer.
pub fn u8_slice_to_u16(slice: &[u8]) -> (r: u16)
    requires
        slice@.len() >= 2,
    ensures
        r as nat == be16(slice@),
{
    let b0 = slice[0];
    let b1 = slice[1];
    let r = ((b0 as u16) & 0xff) << 8u16 | ((b1 as u16) & 0xff);
    assert(r == (b0 as u16) * 256 + (b1 as u16)) by (bit_vector)
        requires
            r == ((b0 as u16) & 0xff) << 8u16 | ((b1 as u16) & 0xff),
    ;
    r
}

/// Reads the first four bytes of `slice` as a big-endian 32-bit integer.
pub fn u8_slice_to_u32(slice: &[u8]) -> (r: u32)
    requires
        slice@.len() >= 4,
    ensures
        r as nat == be32(slice@),
{
    let b0 = slice[0];
    let b1 = slice[1];
    let b2 = slice[2];
    let b3 = slice[3];
    let r = ((b0 as u32) & 0xff) << 24u32 | ((b1 as u32) & 0xff) << 16u32 | ((b2 as u32) & 0xff)
        << 8u32 | ((b3 as u32) & 0xff);
    assert(r == (((b0 as u32) * 256 + (b1 as u32)) * 256 + (b2 as u32)) * 256 + (b3 as u32))
        by (bit_vector)
        requires
            r == ((b0 as u32) & 0xff) << 24u32 | ((b1 as u32) & 0xff) << 16u32 | ((b2 as u32)
                & 0xff) << 8u32 | ((b3 as u32) & 0xff),
    ;
    r
}

} // verus!
