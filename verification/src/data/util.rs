//! Integers and slices at positions of a byte buffer.

use crate::le::{le16, le16_bytes, le32, le32_bytes, le64, le64_bytes, splice};
use vstd::prelude::*;

verus! {

/// The first byte of `s`, and the bytes after it.
pub fn u8_first_chunk(s: &[u8]) -> (r: (u8, &[u8]))
    requires
        s@.len() >= 1,
    ensures
        r.0 == s@[0],
        r.1@ == s@.subrange(1, s@.len() as int),
{
    (s[0], &s[1..s.len()])
}

/// Writes `n` at `pos` and returns how many bytes that took.
pub fn u8_write_at(s: &mut [u8], pos: usize, n: u8) -> (written: usize)
    requires
        pos + 1 <= old(s)@.len(),
    ensures
        written == 1,
        final(s)@ == splice(old(s)@, pos as int, seq![n]),
{
    s[pos] = n;
    assert(s@ =~= splice(old(s)@, pos as int, seq![n]));
    1
}

/// The 16-bit integer at `pos`.
pub(crate) fn u16_from_pos(s: &[u8], pos: usize) -> (n: u16)
    requires
        pos + 2 <= s@.len(),
    ensures
        n == le16(s@, pos as int),
{
    s[pos] as u16 + 0x100 * (s[pos + 1] as u16)
}

/// Writes `n` at `pos` and returns how many bytes that took.
pub(crate) fn u16_write_at(s: &mut [u8], pos: usize, n: u16) -> (written: usize)
    requires
        pos + 2 <= old(s)@.len(),
    ensures
        written == 2,
        final(s)@ == splice(old(s)@, pos as int, le16_bytes(n)),
{
    s[pos] = (n % 0x100) as u8;
    s[pos + 1] = (n / 0x100) as u8;
    assert(s@ =~= splice(old(s)@, pos as int, le16_bytes(n)));
    2
}

/// The 32-bit integer at `pos`.
pub(crate) fn u32_from_pos(s: &[u8], pos: usize) -> (n: u32)
    requires
        pos + 4 <= s@.len(),
    ensures
        n == le32(s@, pos as int),
{
    s[pos] as u32 + 0x100 * (s[pos + 1] as u32) + 0x1_0000 * (s[pos + 2] as u32) + 0x100_0000 * (
    s[pos + 3] as u32)
}

/// The 32-bit integer that `s` starts with, and the bytes after it.
pub fn u32_first_chunk(s: &[u8]) -> (r: (u32, &[u8]))
    requires
        s@.len() >= 4,
    ensures
        r.0 == le32(s@, 0),
        r.1@ == s@.subrange(4, s@.len() as int),
{
    (u32_from_pos(s, 0), &s[4..s.len()])
}

/// The bytes before the 32-bit integer that `s` ends with, and that integer.
pub fn u32_last_chunk(s: &[u8]) -> (r: (&[u8], u32))
    requires
        s@.len() >= 4,
    ensures
        r.0@ == s@.subrange(0, s@.len() - 4),
        r.1 == le32(s@, s@.len() - 4),
{
    (&s[0..s.len() - 4], u32_from_pos(s, s.len() - 4))
}

/// Writes `n` at `pos` and returns how many bytes that took.
pub fn u32_write_at(s: &mut [u8], pos: usize, n: u32) -> (written: usize)
    requires
        pos + 4 <= old(s)@.len(),
    ensures
        written == 4,
        final(s)@ == splice(old(s)@, pos as int, le32_bytes(n)),
{
    s[pos] = (n % 0x100) as u8;
    s[pos + 1] = (n / 0x100 % 0x100) as u8;
    s[pos + 2] = (n / 0x1_0000 % 0x100) as u8;
    s[pos + 3] = (n / 0x100_0000) as u8;
    assert(s@ =~= splice(old(s)@, pos as int, le32_bytes(n)));
    4
}

/// The 64-bit integer that `s` starts with, and the bytes after it.
pub fn u64_first_chunk(s: &[u8]) -> (r: (u64, &[u8]))
    requires
        s@.len() >= 8,
    ensures
        r.0 == le64(s@, 0),
        r.1@ == s@.subrange(8, s@.len() as int),
{
    (u64_from_pos(s, 0), &s[8..s.len()])
}

/// The 64-bit integer at `pos`.
pub fn u64_from_pos(s: &[u8], pos: usize) -> (n: u64)
    requires
        pos + 8 <= s@.len(),
    ensures
        n == le64(s@, pos as int),
{
    assert(s.len() == s@.len());
    u32_from_pos(s, pos) as u64 + 0x1_0000_0000 * (u32_from_pos(s, pos + 4) as u64)
}

/// Writes `n` at `pos` and returns how many bytes that took.
pub fn u64_write_at(s: &mut [u8], pos: usize, n: u64) -> (written: usize)
    requires
        pos + 8 <= old(s)@.len(),
    ensures
        written == 8,
        final(s)@ == splice(old(s)@, pos as int, le64_bytes(n)),
{
    assert(s.len() == s@.len());
    u32_write_at(s, pos, (n % 0x1_0000_0000) as u32);
    u32_write_at(s, pos + 4, (n / 0x1_0000_0000) as u32);
    assert(s@ =~= splice(old(s)@, pos as int, le64_bytes(n)));
    8
}

/// Copies `data` to `pos` and returns how many bytes that took.
pub fn copy_slice_at(s: &mut [u8], pos: usize, data: &[u8]) -> (written: usize)
    requires
        pos + data@.len() <= old(s)@.len(),
    ensures
        written == data@.len(),
        final(s)@ == splice(old(s)@, pos as int, data@),
{
    let ghost len = s.len();
    let mut i: usize = 0;
    while i < data.len()
        invariant
            i <= data@.len(),
            pos + data@.len() <= old(s)@.len() == len <= usize::MAX,
            s@ == splice(old(s)@, pos as int, data@.subrange(0, i as int)),
        decreases data@.len() - i,
    {
        s[pos + i] = data[i];
        i += 1;
        assert(s@ =~= splice(old(s)@, pos as int, data@.subrange(0, i as int)));
    }
    assert(data@.subrange(0, i as int) =~= data@);
    data.len()
}

} // verus!
