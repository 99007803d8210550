//! Checked access to a byte buffer: fixed-width little-endian integer
//! reads whose bounds are stated up front, so that no read can run past
//! the end of the buffer.

use vstd::prelude::*;

verus! {

use vstd::bytes::spec_u32_from_le_bytes;
use vstd::bytes::u32_from_le_bytes;

/// The unsigned 32-bit integer stored little-endian at byte offset `off` of `b`.
pub open spec fn le_u32_at(b: Seq<u8>, off: int) -> u32
    recommends
        0 <= off,
        off + 4 <= b.len(),
{
    spec_u32_from_le_bytes(b.subrange(off, off + 4))
}

/// The value of `u` reread as a signed 32-bit integer (two's complement).
pub open spec fn as_signed32(u: u32) -> int {
    if u < 0x8000_0000 {
        u as int
    } else {
        u as int - 0x1_0000_0000
    }
}

/// The signed 32-bit integer stored little-endian at byte offset `off` of `b`.
pub open spec fn le_i32_at(b: Seq<u8>, off: int) -> int {
    as_signed32(le_u32_at(b, off))
}

/// Four consecutive bytes of `buffer`, starting at `index`.
pub fn slice_generator(buffer: &Vec<u8>, index: usize) -> (r: [u8; 4])
    requires
        index + 4 <= buffer.len(),
    ensures
        r@ == buffer@.subrange(index as int, index as int + 4),
{
    let r: [u8; 4] = [buffer[index], buffer[index + 1], buffer[index + 2], buffer[index + 3]];
    proof {
        assert(r@ =~= buffer@.subrange(index as int, index as int + 4));
    }
    r
}

/// Reads the unsigned little-endian 32-bit integer at byte offset `index`.
pub fn read_u32_at(buffer: &Vec<u8>, index: usize) -> (r: u32)
    requires
        index + 4 <= buffer.len(),
    ensures
        r == le_u32_at(buffer@, index as int),
{
    let quad = slice_generator(buffer, index);
    u32_from_le_bytes(quad.as_slice())
}

/// Reads the signed little-endian 32-bit integer at byte offset `index`.
pub fn read_i32_at(buffer: &Vec<u8>, index: usize) -> (r: i32)
    requires
        index + 4 <= buffer.len(),
    ensures
        r as int == le_i32_at(buffer@, index as int),
{
    let u = read_u32_at(buffer, index);
    if u < 0x8000_0000 {
        u as i32
    } else {
        ((u as i64) - 0x1_0000_0000i64) as i32
    }
}

} // verus!
