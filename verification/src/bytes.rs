//! Little-endian integers in byte buffers.

use vstd::prelude::*;

verus! {

pub open spec fn spec_le16(s: Seq<u8>, offset: int) -> u16 {
    (s[offset] + s[offset + 1] * 0x100) as u16
}

pub open spec fn spec_le32(s: Seq<u8>, offset: int) -> u32 {
    (s[offset] + s[offset + 1] * 0x100 + s[offset + 2] * 0x1_0000 + s[offset + 3] * 0x100_0000) as u32
}

pub open spec fn spec_le64(s: Seq<u8>, offset: int) -> u64 {
    (spec_le32(s, offset) + spec_le32(s, offset + 4) * 0x1_0000_0000) as u64
}

pub open spec fn le16_bytes(value: u16) -> Seq<u8> {
    seq![(value as int % 0x100) as u8, (value as int / 0x100) as u8]
}

pub open spec fn le32_bytes(value: u32) -> Seq<u8> {
    seq![
        (value as int % 0x100) as u8,
        (value as int / 0x100 % 0x100) as u8,
        (value as int / 0x1_0000 % 0x100) as u8,
        (value as int / 0x100_0000) as u8,
    ]
}

pub open spec fn le64_bytes(value: u64) -> Seq<u8> {
    le32_bytes((value as int % 0x1_0000_0000) as u32) + le32_bytes(
        (value as int / 0x1_0000_0000) as u32,
    )
}

/// The two bytes from `offset` on, read as a little-endian integer.
pub fn le_u16(bytes: &[u8], offset: usize) -> (r: u16)
    requires
        offset + 2 <= bytes.len(),
    ensures
        r == spec_le16(bytes@, offset as int),
{
    bytes[offset] as u16 + bytes[offset + 1] as u16 * 0x100
}

/// The four bytes from `offset` on, read as a little-endian integer.
pub fn le_u32(bytes: &[u8], offset: usize) -> (r: u32)
    requires
        offset + 4 <= bytes.len(),
    ensures
        r == spec_le32(bytes@, offset as int),
{
    bytes[offset] as u32 + bytes[offset + 1] as u32 * 0x100 + bytes[offset + 2] as u32 * 0x1_0000
        + bytes[offset + 3] as u32 * 0x100_0000
}

/// The eight bytes from `offset` on, read as a little-endian integer.
pub fn le_u64(bytes: &[u8], offset: usize) -> (r: u64)
    requires
        offset + 8 <= bytes.len(),
    ensures
        r == spec_le64(bytes@, offset as int),
{
    le_u32(bytes, offset) as u64 + le_u32(bytes, offset + 4) as u64 * 0x1_0000_0000
}

pub fn put_u16(out: &mut Vec<u8>, value: u16)
    ensures
        final(out)@ == old(out)@ + le16_bytes(value),
{
    out.push((value % 0x100) as u8);
    out.push((value / 0x100) as u8);
    assert(out@ =~= old(out)@ + le16_bytes(value));
}

pub fn put_u32(out: &mut Vec<u8>, value: u32)
    ensures
        final(out)@ == old(out)@ + le32_bytes(value),
{
    out.push((value % 0x100) as u8);
    out.push((value / 0x100 % 0x100) as u8);
    out.push((value / 0x1_0000 % 0x100) as u8);
    out.push((value / 0x100_0000) as u8);
    assert(out@ =~= old(out)@ + le32_bytes(value));
}

pub fn put_u64(out: &mut Vec<u8>, value: u64)
    ensures
        final(out)@ == old(out)@ + le64_bytes(value),
{
    put_u32(out, (value % 0x1_0000_0000) as u32);
    put_u32(out, (value / 0x1_0000_0000) as u32);
    assert(out@ =~= old(out)@ + le64_bytes(value));
}

/// A 16-bit integer is read back as it was written.
pub proof fn le16_round_trip(s: Seq<u8>, offset: int, value: u16)
    requires
        0 <= offset,
        offset + 2 <= s.len(),
        s.subrange(offset, offset + 2) == le16_bytes(value),
    ensures
        spec_le16(s, offset) == value,
{
    let b = s.subrange(offset, offset + 2);
    assert(b[0] == s[offset] && b[1] == s[offset + 1]);
}

/// A 32-bit integer is read back as it was written.
pub proof fn le32_round_trip(s: Seq<u8>, offset: int, value: u32)
    requires
        0 <= offset,
        offset + 4 <= s.len(),
        s.subrange(offset, offset + 4) == le32_bytes(value),
    ensures
        spec_le32(s, offset) == value,
{
    let b = s.subrange(offset, offset + 4);
    assert(b[0] == s[offset] && b[1] == s[offset + 1] && b[2] == s[offset + 2] && b[3] == s[offset
        + 3]);
}

/// A 64-bit integer is read back as it was written.
pub proof fn le64_round_trip(s: Seq<u8>, offset: int, value: u64)
    requires
        0 <= offset,
        offset + 8 <= s.len(),
        s.subrange(offset, offset + 8) == le64_bytes(value),
    ensures
        spec_le64(s, offset) == value,
{
    let b = s.subrange(offset, offset + 8);
    let low = le32_bytes((value as int % 0x1_0000_0000) as u32);
    let high = le32_bytes((value as int / 0x1_0000_0000) as u32);
    assert(s.subrange(offset, offset + 4) =~= b.subrange(0, 4));
    assert(b.subrange(0, 4) =~= low);
    assert(s.subrange(offset + 4, offset + 8) =~= b.subrange(4, 8));
    assert(b.subrange(4, 8) =~= high);
    le32_round_trip(s, offset, (value as int % 0x1_0000_0000) as u32);
    le32_round_trip(s, offset + 4, (value as int / 0x1_0000_0000) as u32);
}

} // verus!
