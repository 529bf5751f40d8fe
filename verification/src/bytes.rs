//! Big-endian and little-endian integer layouts inside byte sequences.
use vstd::prelude::*;

verus! {

/// The value of the big-endian `u16` stored at `s[i..i + 2]`.
pub open spec fn be_u16_at(s: Seq<u8>, i: int) -> int {
    s[i] * 256 + s[i + 1]
}

/// The value of the big-endian `u32` stored at `s[i..i + 4]`.
pub open spec fn be_u32_at(s: Seq<u8>, i: int) -> int {
    s[i] * 16777216 + s[i + 1] * 65536 + s[i + 2] * 256 + s[i + 3]
}

/// The value of the little-endian `u32` stored at `s[i..i + 4]`.
pub open spec fn le_u32_at(s: Seq<u8>, i: int) -> int {
    s[i + 3] * 16777216 + s[i + 2] * 65536 + s[i + 1] * 256 + s[i]
}

/// The two big-endian bytes of `x`.
pub open spec fn be_u16_bytes(x: u16) -> Seq<u8> {
    seq![(x / 256) as u8, (x % 256) as u8]
}

/// The four big-endian bytes of `x`.
pub open spec fn be_u32_bytes(x: u32) -> Seq<u8> {
    seq![(x / 16777216) as u8, ((x / 65536) % 256) as u8, ((x / 256) % 256) as u8, (x % 256) as u8]
}

/// Reads the big-endian `u16` at `buf[at..at + 2]`.
pub fn read_be_u16(buf: &Vec<u8>, at: usize) -> (r: u16)
    requires
        at + 2 <= buf.len(),
    ensures
        r == be_u16_at(buf@, at as int),
{
    (buf[at] as u16) * 256 + (buf[at + 1] as u16)
}

/// Reads the big-endian `u32` at `buf[at..at + 4]`.
pub fn read_be_u32(buf: &Vec<u8>, at: usize) -> (r: u32)
    requires
        at + 4 <= buf.len(),
    ensures
        r == be_u32_at(buf@, at as int),
{
    (buf[at] as u32) * 16777216 + (buf[at + 1] as u32) * 65536 + (buf[at + 2] as u32) * 256
        + (buf[at + 3] as u32)
}

/// Reads the little-endian `u32` at `buf[at..at + 4]`.
pub fn read_le_u32(buf: &Vec<u8>, at: usize) -> (r: u32)
    requires
        at + 4 <= buf.len(),
    ensures
        r == le_u32_at(buf@, at as int),
{
    (buf[at + 3] as u32) * 16777216 + (buf[at + 2] as u32) * 65536 + (buf[at + 1] as u32) * 256
        + (buf[at] as u32)
}

/// Writes `x` big-endian into `buf[at..at + 2]`, leaving every other byte as it was.
pub fn write_be_u16(buf: &mut Vec<u8>, at: usize, x: u16)
    requires
        at + 2 <= old(buf).len(),
    ensures
        final(buf)@ == old(buf)@.update(at as int, (x / 256) as u8).update(at + 1, (x % 256) as u8),
        be_u16_at(final(buf)@, at as int) == x,
{
    buf.set(at, (x / 256) as u8);
    buf.set(at + 1, (x % 256) as u8);
}

/// Writes `x` big-endian into `buf[at..at + 4]`, leaving every other byte as it was.
pub fn write_be_u32(buf: &mut Vec<u8>, at: usize, x: u32)
    requires
        at + 4 <= old(buf).len(),
    ensures
        final(buf)@ == old(buf)@.update(at as int, (x / 16777216) as u8).update(
            at + 1,
            ((x / 65536) % 256) as u8,
        ).update(at + 2, ((x / 256) % 256) as u8).update(at + 3, (x % 256) as u8),
        be_u32_at(final(buf)@, at as int) == x,
{
    buf.set(at, (x / 16777216) as u8);
    buf.set(at + 1, ((x / 65536) % 256) as u8);
    buf.set(at + 2, ((x / 256) % 256) as u8);
    buf.set(at + 3, (x % 256) as u8);
}

/// The big-endian bytes of a `u16` read back give the `u16`.
pub proof fn lemma_be_u16_bytes(x: u16)
    ensures
        be_u16_bytes(x).len() == 2,
        be_u16_at(be_u16_bytes(x), 0) == x,
{
}

/// The big-endian bytes of a `u32` read back give the `u32`.
pub proof fn lemma_be_u32_bytes(x: u32)
    ensures
        be_u32_bytes(x).len() == 4,
        be_u32_at(be_u32_bytes(x), 0) == x,
{
}

/// Bounds of the values read.
pub proof fn lemma_be_bounds(s: Seq<u8>, i: int)
    requires
        0 <= i,
        i + 4 <= s.len(),
    ensures
        0 <= be_u16_at(s, i) <= u16::MAX,
        0 <= be_u32_at(s, i) <= u32::MAX,
{
}

} // verus!
