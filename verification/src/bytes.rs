//! Little-endian integers inside byte sequences.
use vstd::prelude::*;

verus! {

/// The number that two bytes at `o` spell, least significant byte first.
pub open spec fn u16_at(b: Seq<u8>, o: int) -> int {
    b[o] as int + 256 * (b[o + 1] as int)
}

/// The number that four bytes at `o` spell, least significant byte first.
pub open spec fn u32_at(b: Seq<u8>, o: int) -> int {
    b[o] as int + 256 * (b[o + 1] as int) + 65536 * (b[o + 2] as int) + 16777216 * (b[o + 3]
        as int)
}

/// The two's complement reading of `u32_at`.
pub open spec fn i32_at(b: Seq<u8>, o: int) -> int {
    let v = u32_at(b, o);
    if v < 0x8000_0000 {
        v
    } else {
        v - 0x1_0000_0000
    }
}

/// The number that eight bytes at `o` spell, least significant byte first.
pub open spec fn u64_at(b: Seq<u8>, o: int) -> int {
    u32_at(b, o) + 0x1_0000_0000 * u32_at(b, o + 4)
}

/// The two's complement reading of `u64_at`.
pub open spec fn i64_at(b: Seq<u8>, o: int) -> int {
    let v = u64_at(b, o);
    if v < 0x8000_0000_0000_0000 {
        v
    } else {
        v - 0x1_0000_0000_0000_0000
    }
}

/// The number that sixteen bytes at `o` spell, least significant byte first.
pub open spec fn u128_at(b: Seq<u8>, o: int) -> int {
    u64_at(b, o) + 0x1_0000_0000_0000_0000 * u64_at(b, o + 8)
}

/// The two bytes of `v`, least significant byte first.
pub open spec fn u16_bytes(v: u16) -> Seq<u8> {
    seq![(v % 256) as u8, (v / 256) as u8]
}

/// The four bytes of `v`, least significant byte first.
pub open spec fn u32_bytes(v: u32) -> Seq<u8> {
    seq![(v % 256) as u8, (v / 256 % 256) as u8, (v / 65536 % 256) as u8, (v / 16777216) as u8]
}

/// The unsigned number with the same two's complement bits as `v`.
pub open spec fn i32_bits(v: i32) -> u32 {
    if v >= 0 {
        v as u32
    } else {
        (v + 0x1_0000_0000) as u32
    }
}

/// The four two's complement bytes of `v`, least significant byte first.
pub open spec fn i32_bytes(v: i32) -> Seq<u8> {
    u32_bytes(i32_bits(v))
}

/// Reading the bytes of a number gives the number back.
pub proof fn lemma_u16_round_trip(b: Seq<u8>, o: int, v: u16)
    requires
        0 <= o,
        o + 2 <= b.len(),
        b.subrange(o, o + 2) == u16_bytes(v),
    ensures
        u16_at(b, o) == v,
{
    let s = b.subrange(o, o + 2);
    assert(b[o] == s[0] && b[o + 1] == s[1]);
}

/// Reading the bytes of a number gives the number back.
pub proof fn lemma_u32_round_trip(b: Seq<u8>, o: int, v: u32)
    requires
        0 <= o,
        o + 4 <= b.len(),
        b.subrange(o, o + 4) == u32_bytes(v),
    ensures
        u32_at(b, o) == v,
{
    let s = b.subrange(o, o + 4);
    assert(b[o] == s[0] && b[o + 1] == s[1] && b[o + 2] == s[2] && b[o + 3] == s[3]);
}

/// Reading the bytes of a signed number gives the number back.
pub proof fn lemma_i32_round_trip(b: Seq<u8>, o: int, v: i32)
    requires
        0 <= o,
        o + 4 <= b.len(),
        b.subrange(o, o + 4) == i32_bytes(v),
    ensures
        i32_at(b, o) == v,
{
    lemma_u32_round_trip(b, o, i32_bits(v));
}

/// Four bytes are determined by the number that they spell.
pub proof fn lemma_u32_injective(a: Seq<u8>, b: Seq<u8>, o: int)
    requires
        u32_at(a, o) == u32_at(b, o),
    ensures
        forall|k: int| o <= k < o + 4 ==> a[k] == b[k],
{
    assert(a[o] == b[o] && a[o + 1] == b[o + 1] && a[o + 2] == b[o + 2] && a[o + 3] == b[o + 3]);
}

/// Eight bytes are determined by the number that they spell.
pub proof fn lemma_u64_injective(a: Seq<u8>, b: Seq<u8>, o: int)
    requires
        u64_at(a, o) == u64_at(b, o),
    ensures
        forall|k: int| o <= k < o + 8 ==> a[k] == b[k],
{
    assert(u32_at(a, o) == u32_at(b, o) && u32_at(a, o + 4) == u32_at(b, o + 4));
    lemma_u32_injective(a, b, o);
    lemma_u32_injective(a, b, o + 4);
}

/// Sixteen bytes are determined by the number that they spell.
pub proof fn lemma_u128_injective(a: Seq<u8>, b: Seq<u8>, o: int)
    requires
        u128_at(a, o) == u128_at(b, o),
    ensures
        forall|k: int| o <= k < o + 16 ==> a[k] == b[k],
{
    assert(u64_at(a, o) == u64_at(b, o) && u64_at(a, o + 8) == u64_at(b, o + 8)) by {
        assert(0 <= u64_at(a, o) < 0x1_0000_0000_0000_0000);
        assert(0 <= u64_at(b, o) < 0x1_0000_0000_0000_0000);
    }
    lemma_u64_injective(a, b, o);
    lemma_u64_injective(a, b, o + 8);
}

/// The unsigned 16-bit number at `o`.
pub fn u16_le(b: &[u8], o: usize) -> (v: u16)
    requires
        o + 2 <= b@.len(),
    ensures
        v == u16_at(b@, o as int),
{
    (b[o] as u16) + 256 * (b[o + 1] as u16)
}

/// The unsigned 32-bit number at `o`.
pub fn u32_le(b: &[u8], o: usize) -> (v: u32)
    requires
        o + 4 <= b@.len(),
    ensures
        v == u32_at(b@, o as int),
{
    (b[o] as u32) + 256 * (b[o + 1] as u32) + 65536 * (b[o + 2] as u32) + 16777216 * (b[o + 3]
        as u32)
}

/// The signed 32-bit number at `o`.
pub fn i32_le(b: &[u8], o: usize) -> (v: i32)
    requires
        o + 4 <= b@.len(),
    ensures
        v == i32_at(b@, o as int),
{
    let u: u32 = u32_le(b, o);
    if u < 0x8000_0000 {
        u as i32
    } else {
        (u as i64 - 0x1_0000_0000) as i32
    }
}

/// The unsigned 64-bit number at `o`.
pub fn u64_le(b: &[u8], o: usize) -> (v: u64)
    requires
        o + 8 <= b@.len(),
    ensures
        v == u64_at(b@, o as int),
{
    assert(b@.len() == b.len());
    (u32_le(b, o) as u64) + 0x1_0000_0000 * (u32_le(b, o + 4) as u64)
}

/// The signed 64-bit number at `o`.
pub fn i64_le(b: &[u8], o: usize) -> (v: i64)
    requires
        o + 8 <= b@.len(),
    ensures
        v == i64_at(b@, o as int),
{
    let u: u64 = u64_le(b, o);
    if u < 0x8000_0000_0000_0000 {
        u as i64
    } else {
        (u as i128 - 0x1_0000_0000_0000_0000) as i64
    }
}

/// The unsigned 128-bit number at `o`.
pub fn u128_le(b: &[u8], o: usize) -> (v: u128)
    requires
        o + 16 <= b@.len(),
    ensures
        v == u128_at(b@, o as int),
{
    assert(b@.len() == b.len());
    (u64_le(b, o) as u128) + 0x1_0000_0000_0000_0000 * (u64_le(b, o + 8) as u128)
}

/// Append the two bytes of `v`.
pub fn push_u16(out: &mut Vec<u8>, v: u16)
    ensures
        final(out)@ == old(out)@ + u16_bytes(v),
{
    out.push((v % 256) as u8);
    out.push((v / 256) as u8);
}

/// Append the four bytes of `v`.
pub fn push_u32(out: &mut Vec<u8>, v: u32)
    ensures
        final(out)@ == old(out)@ + u32_bytes(v),
{
    out.push((v % 256) as u8);
    out.push((v / 256 % 256) as u8);
    out.push((v / 65536 % 256) as u8);
    out.push((v / 16777216) as u8);
}

/// Append the four bytes of `v`.
pub fn push_i32(out: &mut Vec<u8>, v: i32)
    ensures
        final(out)@ == old(out)@ + i32_bytes(v),
{
    let bits: u32 = if v >= 0 {
        v as u32
    } else {
        (v as i64 + 0x1_0000_0000) as u32
    };
    push_u32(out, bits);
}

/// Append every byte of `more`.
pub fn push_all(out: &mut Vec<u8>, more: &[u8])
    ensures
        final(out)@ == old(out)@ + more@,
{
    out.extend_from_slice(more);
}

/// Append `n` zero bytes.
pub fn push_zeros(out: &mut Vec<u8>, n: usize)
    ensures
        final(out)@ == old(out)@ + Seq::new(n as nat, |i: int| 0u8),
{
    let mut i: usize = 0;
    while i < n
        invariant
            i <= n,
            out@ == old(out)@ + Seq::new(i as nat, |k: int| 0u8),
        decreases n - i,
    {
        out.push(0);
        i += 1;
    }
}

} // verus!
