//! Little-endian integer fields read out of raw on-disk byte buffers.

use vstd::prelude::*;

verus! {

/// The 16-bit little-endian value stored at byte offset `i` of `b`.
pub open spec fn le16_at(b: Seq<u8>, i: int) -> u16 {
    (b[i] + b[i + 1] * 0x100) as u16
}

/// The 32-bit little-endian value stored at byte offset `i` of `b`.
pub open spec fn le32_at(b: Seq<u8>, i: int) -> u32 {
    (b[i] + b[i + 1] * 0x100 + b[i + 2] * 0x1_0000 + b[i + 3] * 0x100_0000) as u32
}

/// The 64-bit little-endian value stored at byte offset `i` of `b`.
pub open spec fn le64_at(b: Seq<u8>, i: int) -> u64 {
    (b[i] + b[i + 1] * 0x100 + b[i + 2] * 0x1_0000 + b[i + 3] * 0x100_0000
        + b[i + 4] * 0x1_0000_0000 + b[i + 5] * 0x100_0000_0000
        + b[i + 6] * 0x1_0000_0000_0000 + b[i + 7] * 0x100_0000_0000_0000) as u64
}

pub fn read_le16(b: &Vec<u8>, i: usize) -> (r: u16)
    requires
        i + 2 <= b@.len(),
    ensures
        r == le16_at(b@, i as int),
{
    let _n: usize = b.len();
    (b[i] as u16) + (b[i + 1] as u16) * 0x100
}

pub fn read_le32(b: &Vec<u8>, i: usize) -> (r: u32)
    requires
        i + 4 <= b@.len(),
    ensures
        r == le32_at(b@, i as int),
{
    let _n: usize = b.len();
    (b[i] as u32) + (b[i + 1] as u32) * 0x100 + (b[i + 2] as u32) * 0x1_0000
        + (b[i + 3] as u32) * 0x100_0000
}

pub fn read_le64(b: &Vec<u8>, i: usize) -> (r: u64)
    requires
        i + 8 <= b@.len(),
    ensures
        r == le64_at(b@, i as int),
{
    let _n: usize = b.len();
    (b[i] as u64) + (b[i + 1] as u64) * 0x100 + (b[i + 2] as u64) * 0x1_0000
        + (b[i + 3] as u64) * 0x100_0000 + (b[i + 4] as u64) * 0x1_0000_0000
        + (b[i + 5] as u64) * 0x100_0000_0000 + (b[i + 6] as u64) * 0x1_0000_0000_0000
        + (b[i + 7] as u64) * 0x100_0000_0000_0000
}

} // verus!
