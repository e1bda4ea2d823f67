//! Integers in bytes and in text.

use crate::data::schema::digits_value;
use crate::le::{
    entries_bytes, entries_in, le16, le16_bytes, le32, le32_bytes, le64, le64_bytes,
    lemma_entries_in, splice,
};
use crate::text::decimal;
use vstd::prelude::*;

verus! {

/// An integer in bytes has its least significant byte first, and each byte counts 256 times as much
/// as the one before it.
pub proof fn law_integers_read(s: Seq<u8>, at: int)
    ensures
        le16(s, at) == s[at] + 256 * s[at + 1],
        le32(s, at) == s[at] + 256 * s[at + 1] + 65536 * s[at + 2] + 16777216 * s[at + 3],
        le64(s, at) == s[at] + 256 * s[at + 1] + 65536 * s[at + 2] + 16777216 * s[at + 3]
            + 4294967296 * s[at + 4] + 1099511627776 * s[at + 5] + 281474976710656 * s[at + 6]
            + 72057594037927936 * s[at + 7],
{
}

/// An integer is written as the bytes that it is read from.
pub proof fn law_integers_written(a: u16, b: u32, c: u64)
    ensures
        le16_bytes(a).len() == 2,
        le32_bytes(b).len() == 4,
        le64_bytes(c).len() == 8,
        a == le16_bytes(a)[0] + 256 * le16_bytes(a)[1],
        b == le32_bytes(b)[0] + 256 * le32_bytes(b)[1] + 65536 * le32_bytes(b)[2] + 16777216
            * le32_bytes(b)[3],
        c == le64_bytes(c)[0] + 256 * le64_bytes(c)[1] + 65536 * le64_bytes(c)[2] + 16777216
            * le64_bytes(c)[3] + 4294967296 * le64_bytes(c)[4] + 1099511627776 * le64_bytes(c)[5]
            + 281474976710656 * le64_bytes(c)[6] + 72057594037927936 * le64_bytes(c)[7],
{
    let lo = (c % 0x1_0000_0000) as u32;
    let hi = (c / 0x1_0000_0000) as u32;
    let x = le64_bytes(c);
    assert(x =~= le32_bytes(lo) + le32_bytes(hi));
    assert(lo == x[0] + 256 * x[1] + 65536 * x[2] + 16777216 * x[3]);
    assert(hi == x[4] + 256 * x[5] + 65536 * x[6] + 16777216 * x[7]);
    assert(c == lo + 4294967296 * hi);
}

/// The bytes that an integer is read from are the only ones that it is written as.
pub proof fn law_integers_unique(s: Seq<u8>, at: int)
    requires
        0 <= at,
        at + 8 <= s.len(),
    ensures
        le16_bytes(le16(s, at)) == s.subrange(at, at + 2),
        le32_bytes(le32(s, at)) == s.subrange(at, at + 4),
        le64_bytes(le64(s, at)) == s.subrange(at, at + 8),
{
    lemma_le32_unique(s, at);
    lemma_le32_unique(s, at + 4);
    let lo = le32(s, at);
    let hi = le32(s, at + 4);
    assert(le64(s, at) == lo + 0x1_0000_0000 * hi);
    assert(le64(s, at) % 0x1_0000_0000 == lo && le64(s, at) / 0x1_0000_0000 == hi);
    assert(le64_bytes(le64(s, at)) =~= s.subrange(at, at + 4) + s.subrange(at + 4, at + 8));
    assert(le64_bytes(le64(s, at)) =~= s.subrange(at, at + 8));
    let (a, b) = (s[at] as int, s[at + 1] as int);
    assert((a + 256 * b) % 256 == a && (a + 256 * b) / 256 == b);
    assert(le16_bytes(le16(s, at)) =~= s.subrange(at, at + 2));
}

proof fn lemma_le32_unique(s: Seq<u8>, at: int)
    requires
        0 <= at,
        at + 4 <= s.len(),
    ensures
        le32_bytes(le32(s, at)) == s.subrange(at, at + 4),
{
    let (a, b, c, d) = (s[at] as int, s[at + 1] as int, s[at + 2] as int, s[at + 3] as int);
    let n = le32(s, at) as int;
    assert(n == a + 256 * b + 65536 * c + 16777216 * d);
    assert(n % 256 == a);
    assert(n / 256 == b + 256 * c + 65536 * d);
    assert(n / 65536 == c + 256 * d);
    assert(n / 16777216 == d);
    assert(le32_bytes(le32(s, at)) =~= s.subrange(at, at + 4));
}

/// A write replaces the bytes that it covers and no others.
pub proof fn law_write(s: Seq<u8>, at: int, b: Seq<u8>)
    requires
        0 <= at,
        at + b.len() <= s.len(),
    ensures
        splice(s, at, b).len() == s.len(),
        splice(s, at, b).subrange(at, at + b.len()) == b,
        splice(s, at, b).take(at) == s.take(at),
        splice(s, at, b).skip(at + b.len()) == s.skip(at + b.len()),
{
    let t = splice(s, at, b);
    assert(t.subrange(at, at + b.len()) =~= b);
    assert(t.take(at) =~= s.take(at));
    assert(t.skip(at + b.len()) =~= s.skip(at + b.len()));
}

/// Entries take eight bytes each, the key before the value, and are read back as they were.
pub proof fn law_entries(entries: Seq<(u32, u32)>, i: int)
    requires
        0 <= i < entries.len(),
    ensures
        entries_bytes(entries).len() == 8 * entries.len(),
        le32(entries_bytes(entries), 8 * i) == entries[i].0,
        le32(entries_bytes(entries), 8 * i + 4) == entries[i].1,
        entries_in(entries_bytes(entries)) == entries,
{
    lemma_entries_in(entries);
    let b = entries_bytes(entries);
    assert(entries_in(b)[i] == (le32(b, 8 * i), le32(b, 8 * i + 4)));
}

/// A number in decimal has the value of its digits, and no zero before them.
pub proof fn law_decimal(n: int)
    requires
        0 <= n,
    ensures
        digits_value(decimal(n)) == Some(n),
        n > 0 ==> decimal(n)[0] != '0',
        n < 10 ==> decimal(n).len() == 1,
    decreases n,
{
    let s = decimal(n);
    if n >= 10 {
        law_decimal(n / 10);
        assert(s.drop_last() =~= decimal(n / 10));
        assert(s[0] == decimal(n / 10)[0]);
    } else {
        assert(s.last() == s[0]);
    }
}

} // verus!
