//! Little-endian integers inside byte sequences.

use vstd::prelude::*;

verus! {

/// `s` with the bytes from `at` on replaced by `b`.
pub open spec fn splice(s: Seq<u8>, at: int, b: Seq<u8>) -> Seq<u8> {
    Seq::new(
        s.len(),
        |i: int|
            if at <= i < at + b.len() {
                b[i - at]
            } else {
                s[i]
            },
    )
}

/// The 16-bit integer at `at`.
pub open spec fn le16(s: Seq<u8>, at: int) -> u16 {
    (s[at] + 0x100 * s[at + 1]) as u16
}

/// The 32-bit integer at `at`.
pub open spec fn le32(s: Seq<u8>, at: int) -> u32 {
    (s[at] + 0x100 * s[at + 1] + 0x1_0000 * s[at + 2] + 0x100_0000 * s[at + 3]) as u32
}

/// The 64-bit integer at `at`.
pub open spec fn le64(s: Seq<u8>, at: int) -> u64 {
    (le32(s, at) + 0x1_0000_0000 * le32(s, at + 4)) as u64
}

/// The two bytes of `n`, least significant first.
pub open spec fn le16_bytes(n: u16) -> Seq<u8> {
    seq![(n % 0x100) as u8, (n / 0x100) as u8]
}

/// The four bytes of `n`, least significant first.
pub open spec fn le32_bytes(n: u32) -> Seq<u8> {
    seq![
        (n % 0x100) as u8,
        (n / 0x100 % 0x100) as u8,
        (n / 0x1_0000 % 0x100) as u8,
        (n / 0x100_0000) as u8,
    ]
}

/// The eight bytes of `n`, least significant first.
pub open spec fn le64_bytes(n: u64) -> Seq<u8> {
    le32_bytes((n % 0x1_0000_0000) as u32) + le32_bytes((n / 0x1_0000_0000) as u32)
}

/// The eight bytes of an entry: a key and a value of 32 bits.
pub open spec fn entry_bytes(key: u32, value: u32) -> Seq<u8> {
    le32_bytes(key) + le32_bytes(value)
}

/// The bytes of several entries, one after the other.
pub open spec fn entries_bytes(entries: Seq<(u32, u32)>) -> Seq<u8> {
    Seq::new(
        8 * entries.len(),
        |i: int| entry_bytes(entries[i / 8].0, entries[i / 8].1)[i % 8],
    )
}

/// The entries that `bytes` are made of.
pub open spec fn entries_in(bytes: Seq<u8>) -> Seq<(u32, u32)> {
    Seq::new(bytes.len() / 8, |i: int| (le32(bytes, 8 * i), le32(bytes, 8 * i + 4)))
}

/// The bytes of entries are read back as those entries.
pub proof fn lemma_entries_in(entries: Seq<(u32, u32)>)
    ensures
        entries_bytes(entries).len() == 8 * entries.len(),
        entries_in(entries_bytes(entries)) == entries,
{
    let b = entries_bytes(entries);
    assert forall|i: int| 0 <= i < entries.len() implies entries_in(b)[i] == #[trigger] entries[i] by {
        let at = 8 * i;
        let e = entry_bytes(entries[i].0, entries[i].1);
        assert forall|j: int| 0 <= j < 8 implies #[trigger] b[at + j] == e[j] by {
            assert((8 * i + j) / 8 == i && (8 * i + j) % 8 == j);
        }
        assert(b[at + 0] == e[0] && b[at + 1] == e[1] && b[at + 2] == e[2] && b[at + 3] == e[3]);
        assert(b[at + 4] == e[4] && b[at + 5] == e[5] && b[at + 6] == e[6] && b[at + 7] == e[7]);
        assert(b.subrange(at, at + 4) =~= le32_bytes(entries[i].0));
        assert(b.subrange(at + 4, at + 8) =~= le32_bytes(entries[i].1));
        lemma_le32_of_bytes(b, at, entries[i].0);
        lemma_le32_of_bytes(b, at + 4, entries[i].1);
    }
    assert(entries_in(b) =~= entries);
}

/// What was written as a 16-bit integer is read back as that integer.
pub proof fn lemma_le16_of_bytes(s: Seq<u8>, at: int, n: u16)
    requires
        0 <= at,
        at + 2 <= s.len(),
        s.subrange(at, at + 2) == le16_bytes(n),
    ensures
        le16(s, at) == n,
{
    let b = s.subrange(at, at + 2);
    assert(b[0] == s[at] && b[1] == s[at + 1]);
}

/// What was written as a 32-bit integer is read back as that integer.
pub proof fn lemma_le32_of_bytes(s: Seq<u8>, at: int, n: u32)
    requires
        0 <= at,
        at + 4 <= s.len(),
        s.subrange(at, at + 4) == le32_bytes(n),
    ensures
        le32(s, at) == n,
{
    let b = s.subrange(at, at + 4);
    assert(b[0] == s[at] && b[1] == s[at + 1] && b[2] == s[at + 2] && b[3] == s[at + 3]);
}

/// What was written as a 64-bit integer is read back as that integer.
pub proof fn lemma_le64_of_bytes(s: Seq<u8>, at: int, n: u64)
    requires
        0 <= at,
        at + 8 <= s.len(),
        s.subrange(at, at + 8) == le64_bytes(n),
    ensures
        le64(s, at) == n,
{
    let lo = (n % 0x1_0000_0000) as u32;
    let hi = (n / 0x1_0000_0000) as u32;
    let b = s.subrange(at, at + 8);
    assert(s.subrange(at, at + 4) =~= b.subrange(0, 4));
    assert(b.subrange(0, 4) =~= le32_bytes(lo));
    assert(s.subrange(at + 4, at + 8) =~= b.subrange(4, 8));
    assert(b.subrange(4, 8) =~= le32_bytes(hi));
    lemma_le32_of_bytes(s, at, lo);
    lemma_le32_of_bytes(s, at + 4, hi);
}

} // verus!
