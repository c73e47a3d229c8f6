//! What numbers and the bytes that spell them have to do with each other.
use vstd::prelude::*;

use crate::bytes::{
    i32_at, i32_bytes, i64_at, u128_at, u16_at, u16_bytes, u32_at, u32_bytes, u64_at,
};

verus! {

/// The low byte of a number comes first and the high byte last, and the bytes of a number
/// are those that it is read from.
pub proof fn law_numbers_come_low_byte_first(b: Seq<u8>, o: int)
    requires
        0 <= o,
    ensures
        o + 2 <= b.len() ==> u16_at(b, o) % 256 == b[o] && u16_at(b, o) / 256 == b[o + 1],
        o + 4 <= b.len() ==> {
            &&& 0 <= u32_at(b, o) <= u32::MAX
            &&& u32_at(b, o) % 0x1_0000 == u16_at(b, o)
            &&& u32_at(b, o) / 0x1_0000 == u16_at(b, o + 2)
        },
        o + 8 <= b.len() ==> {
            &&& 0 <= u64_at(b, o) <= u64::MAX
            &&& u64_at(b, o) % 0x1_0000_0000 == u32_at(b, o)
            &&& u64_at(b, o) / 0x1_0000_0000 == u32_at(b, o + 4)
        },
        o + 16 <= b.len() ==> {
            &&& 0 <= u128_at(b, o) <= u128::MAX
            &&& u128_at(b, o) % 0x1_0000_0000_0000_0000 == u64_at(b, o)
            &&& u128_at(b, o) / 0x1_0000_0000_0000_0000 == u64_at(b, o + 8)
        },
{
}

/// A signed number is the unsigned one of the same bytes where the top bit is clear, and is
/// below zero by as much as the unsigned one lacks of a power of two where it is set.
pub proof fn law_top_bits_are_signs(b: Seq<u8>, o: int)
    requires
        0 <= o,
    ensures
        o + 4 <= b.len() ==> {
            &&& i32::MIN <= i32_at(b, o) <= i32::MAX
            &&& i32_at(b, o) < 0 <==> b[o + 3] >= 128
            &&& i32_at(b, o) % 0x1_0000_0000 == u32_at(b, o)
        },
        o + 8 <= b.len() ==> {
            &&& i64::MIN <= i64_at(b, o) <= i64::MAX
            &&& i64_at(b, o) < 0 <==> b[o + 7] >= 128
            &&& i64_at(b, o) % 0x1_0000_0000_0000_0000 == u64_at(b, o)
        },
{
}

/// What is written for a number is as many bytes as its kind takes, and they spell it.
pub proof fn law_numbers_are_written_in_full(s: u16, u: u32, i: i32)
    ensures
        u16_bytes(s).len() == 2 && u16_bytes(s)[0] + 256 * u16_bytes(s)[1] == s,
        u32_bytes(u).len() == 4 && u32_at(u32_bytes(u), 0) == u,
        i32_bytes(i).len() == 4 && i32_at(i32_bytes(i), 0) == i,
        i32_bytes(i)[3] >= 128 <==> i < 0,
{
}

} // verus!
