//! Little- and big-endian integer views of byte sequences.

use vstd::prelude::*;

verus! {

/// The little-endian value of the two bytes at `off`.
pub open spec fn le16(s: Seq<u8>, off: int) -> int {
    s[off] as int + s[off + 1] as int * 0x100
}

/// The little-endian value of the four bytes at `off`.
pub open spec fn le32(s: Seq<u8>, off: int) -> int {
    le16(s, off) + le16(s, off + 2) * 0x1_0000
}

/// The little-endian value of the eight bytes at `off`.
pub open spec fn le64(s: Seq<u8>, off: int) -> int {
    le32(s, off) + le32(s, off + 4) * 0x1_0000_0000
}

/// The big-endian value of the four bytes at `off`.
pub open spec fn be32(s: Seq<u8>, off: int) -> int {
    s[off] as int * 0x100_0000 + s[off + 1] as int * 0x1_0000 + s[off + 2] as int * 0x100
        + s[off + 3] as int
}

/// Reads the little-endian `u16` at `off`; the caller guarantees the bytes exist.
pub fn get_le16(s: &[u8], off: usize) -> (r: u16)
    requires
        off + 2 <= s.len(),
    ensures
        r == le16(s@, off as int),
{
    s[off] as u16 + (s[off + 1] as u16) * 0x100
}

/// Reads the little-endian `u32` at `off`; the caller guarantees the bytes exist.
pub fn get_le32(s: &[u8], off: usize) -> (r: u32)
    requires
        off + 4 <= s.len(),
    ensures
        r == le32(s@, off as int),
{
    let lo = get_le16(s, off);
    let hi = get_le16(s, off + 2);
    lo as u32 + (hi as u32) * 0x1_0000
}

/// Reads the little-endian `u64` at `off`; the caller guarantees the bytes exist.
pub fn get_le64(s: &[u8], off: usize) -> (r: u64)
    requires
        off + 8 <= s.len(),
    ensures
        r == le64(s@, off as int),
{
    let lo = get_le32(s, off);
    let hi = get_le32(s, off + 4);
    lo as u64 + (hi as u64) * 0x1_0000_0000
}

/// Shift-and-mask extraction of the dword fields the device drivers read,
/// as division and remainder.
pub proof fn lemma_u32_fields(x: u32)
    by (bit_vector)
    ensures
        x & 1u32 == x % 2,
        (x >> 1u32) & 3u32 == (x / 2) % 4,
        (x >> 2u32) & 1u32 == (x / 4) % 2,
        x & 0xFFu32 == x % 256,
        x & 0xFFFFu32 == x % 65536,
        (x >> 8u32) & 0xFFu32 == (x / 256) % 256,
        (x >> 10u32) & 0x3Fu32 == (x / 1024) % 64,
        (x >> 10u32) & 0xFu32 == (x / 1024) % 16,
        (x >> 16u32) & 0xFFu32 == (x / 65536) % 256,
        (x >> 16u32) & 0xFFFFu32 == x / 65536,
        x >> 16u32 == x / 65536,
        (x >> 20u32) & 0xFu32 == (x / 0x10_0000) % 16,
        x >> 24u32 == x / 0x100_0000,
        (x >> 24u32) & 0xFFu32 == x / 0x100_0000,
        x & !3u32 == x / 4 * 4,
        x & !0x1Fu32 == x / 32 * 32,
        x & 0xFFFF_FFF0u32 == x / 16 * 16,
        x <= 1 ==> x ^ 1u32 == 1 - x,
{
}

} // verus!
