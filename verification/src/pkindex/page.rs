//! The pages of the index: `[magic, level, count, next, entries...]`, 8 bytes of header and up
//! to 511 entries of a 32-bit key and a 32-bit value.

use crate::data::util::{u16_from_pos, u16_write_at, u32_from_pos, u32_write_at};
use crate::le::{
    entries_bytes, entry_bytes, le16, le16_bytes, le32, le32_bytes, lemma_le16_of_bytes,
    lemma_le32_of_bytes, splice,
};
use vstd::prelude::*;

verus! {

pub const PAGE_LEN: usize = 4096;

pub const PAGE_HEADER_LEN: usize = 8;

pub const MAGIC_OFFSET: usize = 0;

pub const LEVEL_OFFSET: usize = 1;

pub const COUNT_OFFSET: usize = 2;

pub const NEXT_OFFSET: usize = 4;

pub const ENTRY_LEN: usize = 8;

/// 511 with the current page size, and the fanout of every level.
pub const MAX_ENTRIES: usize = (PAGE_LEN - PAGE_HEADER_LEN) / ENTRY_LEN;

pub const MAGIC_HEAD: u8 = 0x58;

pub const MAGIC_NODE: u8 = 0x4e;

pub const MAGIC_LEAF: u8 = 0x4c;

/// Sibling pointer of the rightmost leaf, and the id of a pool slot holding nothing.
pub const NO_PAGE: u32 = u32::MAX;

pub type Page = [u8; PAGE_LEN];

/// The level of a page: 0 for a leaf.
pub open spec fn level_of(p: Seq<u8>) -> u8 {
    p[1]
}

/// How many entries a page holds.
pub open spec fn count_of(p: Seq<u8>) -> nat {
    le16(p, 2) as nat
}

/// The right sibling of a leaf.
pub open spec fn next_of(p: Seq<u8>) -> u32 {
    le32(p, 4)
}

/// The key and the value in a slot.
pub open spec fn entry_at(p: Seq<u8>, slot: int) -> (u32, u32) {
    (le32(p, 8 + 8 * slot), le32(p, 12 + 8 * slot))
}

/// The entries of a page.
#[verifier::opaque]
pub open spec fn entries_of(p: Seq<u8>) -> Seq<(u32, u32)> {
    Seq::new(count_of(p), |i: int| entry_at(p, i))
}

/// A page that holds no entry and has no sibling.
#[verifier::opaque]
pub open spec fn blank(magic: u8, level: u8) -> Seq<u8> {
    splice(
        Seq::new(PAGE_LEN as nat, |i: int| 0u8).update(0, magic).update(1, level),
        4,
        le32_bytes(NO_PAGE),
    )
}

/// `p` with another count.
#[verifier::opaque]
pub open spec fn with_count(p: Seq<u8>, count: int) -> Seq<u8> {
    splice(p, 2, le16_bytes(count as u16))
}

/// `p` with another sibling.
#[verifier::opaque]
pub open spec fn with_next(p: Seq<u8>, next: u32) -> Seq<u8> {
    splice(p, 4, le32_bytes(next))
}

/// `p` with another value in a slot.
#[verifier::opaque]
pub open spec fn with_value(p: Seq<u8>, slot: int, value: u32) -> Seq<u8> {
    splice(p, 12 + 8 * slot, le32_bytes(value))
}

/// `p` with another entry in a slot.
#[verifier::opaque]
pub open spec fn with_entry(p: Seq<u8>, slot: int, key: u32, value: u32) -> Seq<u8> {
    splice(p, 8 + 8 * slot, entry_bytes(key, value))
}

/// `p` with other entries, from the first slot on.
#[verifier::opaque]
pub open spec fn with_entries(p: Seq<u8>, entries: Seq<(u32, u32)>) -> Seq<u8> {
    with_count(splice(p, 8, entries_bytes(entries)), entries.len() as int)
}

/// `p` with an entry put in before slot `pos`: those from there on move up by one.
#[verifier::opaque]
pub open spec fn with_inserted(p: Seq<u8>, pos: int, key: u32, value: u32) -> Seq<u8> {
    let end = 8 + 8 * count_of(p) as int;
    let moved = splice(p, 16 + 8 * pos, p.subrange(8 + 8 * pos, end));
    with_count(with_entry(moved, pos, key, value), count_of(p) as int + 1)
}

/// `p` without the entry in slot `pos`: those after it move down by one.
#[verifier::opaque]
pub open spec fn with_removed(p: Seq<u8>, pos: int) -> Seq<u8> {
    let end = 8 + 8 * count_of(p) as int;
    with_count(splice(p, 8 + 8 * pos, p.subrange(16 + 8 * pos, end)), count_of(p) - 1)
}

/// A page of the right length that claims no more entries than it has room for.
pub open spec fn page_fits(p: Seq<u8>) -> bool {
    &&& p.len() == PAGE_LEN
    &&& count_of(p) <= MAX_ENTRIES
}

// What the byte-level changes mean for the header and the entries.

pub proof fn lemma_entries_len(p: Seq<u8>)
    ensures
        entries_of(p).len() == count_of(p),
        forall|i: int| 0 <= i < count_of(p) ==> #[trigger] entries_of(p)[i] == entry_at(p, i),
{
    reveal(entries_of);
}

pub proof fn lemma_blank(magic: u8, level: u8)
    ensures
        page_fits(blank(magic, level)),
        blank(magic, level)[0] == magic,
        level_of(blank(magic, level)) == level,
        next_of(blank(magic, level)) == NO_PAGE,
        entries_of(blank(magic, level)) == Seq::<(u32, u32)>::empty(),
{
    reveal(entries_of);
    reveal(blank);
    let p = blank(magic, level);
    assert(p.subrange(4, 8) =~= le32_bytes(NO_PAGE));
    lemma_le32_of_bytes(p, 4, NO_PAGE);
    assert(p[2] == 0 && p[3] == 0);
    assert(entries_of(p) =~= Seq::<(u32, u32)>::empty());
}

pub proof fn lemma_with_count(p: Seq<u8>, count: int)
    requires
        p.len() == PAGE_LEN,
        0 <= count <= MAX_ENTRIES,
    ensures
        page_fits(with_count(p, count)),
        count_of(with_count(p, count)) == count,
        with_count(p, count)[0] == p[0],
        level_of(with_count(p, count)) == level_of(p),
        next_of(with_count(p, count)) == next_of(p),
        forall|i: int|
            0 <= i < MAX_ENTRIES ==> #[trigger] entry_at(with_count(p, count), i) == entry_at(p, i),
{
    reveal(with_count);
    let q = with_count(p, count);
    assert(q.subrange(2, 4) =~= le16_bytes(count as u16));
    lemma_le16_of_bytes(q, 2, count as u16);
}

pub proof fn lemma_with_next(p: Seq<u8>, next: u32)
    requires
        page_fits(p),
    ensures
        page_fits(with_next(p, next)),
        with_next(p, next)[0] == p[0],
        level_of(with_next(p, next)) == level_of(p),
        next_of(with_next(p, next)) == next,
        entries_of(with_next(p, next)) == entries_of(p),
{
    reveal(entries_of);
    reveal(with_next);
    let q = with_next(p, next);
    assert(q.subrange(4, 8) =~= le32_bytes(next));
    lemma_le32_of_bytes(q, 4, next);
    assert(q[2] == p[2] && q[3] == p[3]);
    assert(entries_of(q) =~= entries_of(p));
}

pub proof fn lemma_with_entry(p: Seq<u8>, slot: int, key: u32, value: u32)
    requires
        p.len() == PAGE_LEN,
        0 <= slot < MAX_ENTRIES,
    ensures
        with_entry(p, slot, key, value).len() == PAGE_LEN,
        entry_at(with_entry(p, slot, key, value), slot) == (key, value),
        forall|i: int|
            0 <= i < MAX_ENTRIES && i != slot ==> #[trigger] entry_at(
                with_entry(p, slot, key, value),
                i,
            ) == entry_at(p, i),
        forall|i: int| 0 <= i < 8 ==> #[trigger] with_entry(p, slot, key, value)[i] == p[i],
{
    reveal(with_entry);
    let q = with_entry(p, slot, key, value);
    let at = 8 + 8 * slot;
    assert(q.subrange(at, at + 4) =~= le32_bytes(key));
    assert(q.subrange(at + 4, at + 8) =~= le32_bytes(value));
    lemma_le32_of_bytes(q, at, key);
    lemma_le32_of_bytes(q, at + 4, value);
}

pub proof fn lemma_with_value(p: Seq<u8>, slot: int, value: u32)
    requires
        page_fits(p),
        0 <= slot < count_of(p),
    ensures
        page_fits(with_value(p, slot, value)),
        with_value(p, slot, value)[0] == p[0],
        level_of(with_value(p, slot, value)) == level_of(p),
        next_of(with_value(p, slot, value)) == next_of(p),
        entries_of(with_value(p, slot, value)) == entries_of(p).update(
            slot,
            (entries_of(p)[slot].0, value),
        ),
{
    reveal(entries_of);
    reveal(with_value);
    let q = with_value(p, slot, value);
    let at = 12 + 8 * slot;
    assert(q.subrange(at, at + 4) =~= le32_bytes(value));
    lemma_le32_of_bytes(q, at, value);
    assert forall|i: int| 0 <= i < 8 implies #[trigger] q[i] == p[i] by {}
    assert(count_of(q) == count_of(p));
    assert(entries_of(q) =~= entries_of(p).update(slot, (entries_of(p)[slot].0, value)));
}

pub proof fn lemma_with_entries(p: Seq<u8>, entries: Seq<(u32, u32)>)
    requires
        p.len() == PAGE_LEN,
        entries.len() <= MAX_ENTRIES,
    ensures
        page_fits(with_entries(p, entries)),
        with_entries(p, entries)[0] == p[0],
        level_of(with_entries(p, entries)) == level_of(p),
        next_of(with_entries(p, entries)) == next_of(p),
        entries_of(with_entries(p, entries)) == entries,
{
    reveal(entries_of);
    reveal(with_entries);
    reveal(with_count);
    let b = entries_bytes(entries);
    let q = splice(p, 8, b);
    lemma_with_count(q, entries.len() as int);
    let r = with_entries(p, entries);
    assert forall|i: int| 0 <= i < entries.len() implies #[trigger] entry_at(q, i) == entries[i] by {
        let at = 8 + 8 * i;
        let e = entry_bytes(entries[i].0, entries[i].1);
        assert forall|j: int| 0 <= j < 8 implies #[trigger] q[at + j] == e[j] by {
            assert((8 * i + j) / 8 == i && (8 * i + j) % 8 == j);
            assert(q[at + j] == b[8 * i + j]);
        }
        assert(q[at + 0] == e[0] && q[at + 1] == e[1] && q[at + 2] == e[2] && q[at + 3] == e[3]);
        assert(q[at + 4] == e[4] && q[at + 5] == e[5] && q[at + 6] == e[6] && q[at + 7] == e[7]);
        assert(q.subrange(at, at + 4) =~= le32_bytes(entries[i].0));
        assert(q.subrange(at + 4, at + 8) =~= le32_bytes(entries[i].1));
        lemma_le32_of_bytes(q, at, entries[i].0);
        lemma_le32_of_bytes(q, at + 4, entries[i].1);
    }
    assert(entries_of(r) =~= entries);
}

pub proof fn lemma_with_inserted(p: Seq<u8>, pos: int, key: u32, value: u32)
    requires
        page_fits(p),
        count_of(p) < MAX_ENTRIES,
        0 <= pos <= count_of(p),
    ensures
        page_fits(with_inserted(p, pos, key, value)),
        with_inserted(p, pos, key, value)[0] == p[0],
        level_of(with_inserted(p, pos, key, value)) == level_of(p),
        next_of(with_inserted(p, pos, key, value)) == next_of(p),
        entries_of(with_inserted(p, pos, key, value)) == entries_of(p).insert(pos, (key, value)),
{
    reveal(entries_of);
    reveal(with_entry);
    reveal(with_inserted);
    reveal(with_count);
    let n = count_of(p) as int;
    let end = 8 + 8 * n;
    let moved = splice(p, 16 + 8 * pos, p.subrange(8 + 8 * pos, end));
    let q = with_entry(moved, pos, key, value);
    lemma_with_entry(moved, pos, key, value);
    lemma_with_count(q, n + 1);
    let r = with_inserted(p, pos, key, value);
    assert forall|i: int| pos < i <= n implies #[trigger] entry_at(moved, i) == entry_at(
        p,
        i - 1,
    ) by {
        let at = 8 + 8 * i;
        assert forall|j: int| 0 <= j < 8 implies #[trigger] moved[at + j] == p[at - 8 + j] by {}
        assert(moved[at + 0] == p[at - 8 + 0] && moved[at + 1] == p[at - 8 + 1]);
        assert(moved[at + 2] == p[at - 8 + 2] && moved[at + 3] == p[at - 8 + 3]);
        assert(moved[at + 4] == p[at - 8 + 4] && moved[at + 5] == p[at - 8 + 5]);
        assert(moved[at + 6] == p[at - 8 + 6] && moved[at + 7] == p[at - 8 + 7]);
    }
    assert forall|i: int| 0 <= i < pos implies #[trigger] entry_at(moved, i) == entry_at(p, i) by {}
    assert(entries_of(r) =~= entries_of(p).insert(pos, (key, value)));
}

pub proof fn lemma_with_removed(p: Seq<u8>, pos: int)
    requires
        page_fits(p),
        0 <= pos < count_of(p),
    ensures
        page_fits(with_removed(p, pos)),
        with_removed(p, pos)[0] == p[0],
        level_of(with_removed(p, pos)) == level_of(p),
        next_of(with_removed(p, pos)) == next_of(p),
        entries_of(with_removed(p, pos)) == entries_of(p).remove(pos),
{
    reveal(entries_of);
    reveal(with_removed);
    reveal(with_count);
    let n = count_of(p) as int;
    let end = 8 + 8 * n;
    let q = splice(p, 8 + 8 * pos, p.subrange(16 + 8 * pos, end));
    lemma_with_count(q, n - 1);
    let r = with_removed(p, pos);
    assert forall|i: int| pos <= i < n - 1 implies #[trigger] entry_at(q, i) == entry_at(
        p,
        i + 1,
    ) by {
        let at = 8 + 8 * i;
        assert forall|j: int| 0 <= j < 8 implies #[trigger] q[at + j] == p[at + 8 + j] by {}
        assert(q[at + 0] == p[at + 8 + 0] && q[at + 1] == p[at + 8 + 1]);
        assert(q[at + 2] == p[at + 8 + 2] && q[at + 3] == p[at + 8 + 3]);
        assert(q[at + 4] == p[at + 8 + 4] && q[at + 5] == p[at + 8 + 5]);
        assert(q[at + 6] == p[at + 8 + 6] && q[at + 7] == p[at + 8 + 7]);
    }
    assert forall|i: int| 0 <= i < pos implies #[trigger] entry_at(q, i) == entry_at(p, i) by {}
    assert(entries_of(r) =~= entries_of(p).remove(pos));
}

/// Clears `page` and stamps it with a magic byte and a level.
pub fn init_page(page: &mut Page, magic: u8, level: u8)
    ensures
        final(page)@ == blank(magic, level),
        page_fits(final(page)@),
{
    proof {
        reveal(with_next);
        reveal(blank);
    }
    let ghost zero = Seq::new(PAGE_LEN as nat, |i: int| 0u8);
    *page = [0u8;PAGE_LEN];
    assert(page@ =~= zero);
    page[MAGIC_OFFSET] = magic;
    page[LEVEL_OFFSET] = level;
    set_next(page, NO_PAGE);
    proof {
        lemma_blank(magic, level);
    }
}

/// A page that holds nothing at all.
pub fn zero_page() -> (page: Box<Page>)
    ensures
        page@ == Seq::new(PAGE_LEN as nat, |i: int| 0u8),
        page_fits(page@),
{
    let page: Page = [0u8;PAGE_LEN];
    assert(page@ =~= Seq::new(PAGE_LEN as nat, |i: int| 0u8));
    Box::new(page)
}

/// A copy of `page`.
pub fn copy_page(page: &Page) -> (copy: Box<Page>)
    ensures
        copy@ == page@,
{
    Box::new(*page)
}

pub fn get_level(page: &Page) -> (level: u8)
    ensures
        level == level_of(page@),
{
    page[LEVEL_OFFSET]
}

pub fn get_count(page: &Page) -> (count: usize)
    ensures
        count == count_of(page@),
{
    u16_from_pos(page, COUNT_OFFSET) as usize
}

pub fn set_count(page: &mut Page, count: usize)
    requires
        count <= u16::MAX,
    ensures
        final(page)@ == with_count(old(page)@, count as int),
{
    proof {
        reveal(with_count);
    }
    u16_write_at(page, COUNT_OFFSET, count as u16);
}

pub fn get_next(page: &Page) -> (next: u32)
    ensures
        next == next_of(page@),
{
    u32_from_pos(page, NEXT_OFFSET)
}

pub fn set_next(page: &mut Page, next: u32)
    ensures
        final(page)@ == with_next(old(page)@, next),
{
    proof {
        reveal(with_next);
    }
    u32_write_at(page, NEXT_OFFSET, next);
}

pub fn get_key(page: &Page, slot: usize) -> (key: u32)
    requires
        slot < MAX_ENTRIES,
    ensures
        key == entry_at(page@, slot as int).0,
{
    u32_from_pos(page, PAGE_HEADER_LEN + slot * ENTRY_LEN)
}

pub fn get_value(page: &Page, slot: usize) -> (value: u32)
    requires
        slot < MAX_ENTRIES,
    ensures
        value == entry_at(page@, slot as int).1,
{
    u32_from_pos(page, PAGE_HEADER_LEN + slot * ENTRY_LEN + 4)
}

pub fn set_value(page: &mut Page, slot: usize, value: u32)
    requires
        slot < MAX_ENTRIES,
    ensures
        final(page)@ == with_value(old(page)@, slot as int, value),
{
    proof {
        reveal(with_value);
    }
    u32_write_at(page, PAGE_HEADER_LEN + slot * ENTRY_LEN + 4, value);
}

pub fn put_entry(page: &mut Page, slot: usize, key: u32, value: u32)
    requires
        slot < MAX_ENTRIES,
    ensures
        final(page)@ == with_entry(old(page)@, slot as int, key, value),
{
    proof {
        reveal(with_entry);
    }
    let at: usize = PAGE_HEADER_LEN + slot * ENTRY_LEN;
    u32_write_at(page, at, key);
    u32_write_at(page, at + 4, value);
    assert(page@ =~= with_entry(old(page)@, slot as int, key, value));
}

/// Makes `entries` the entries of the page.
pub fn fill_entries(page: &mut Page, entries: &[(u32, u32)])
    requires
        entries@.len() <= MAX_ENTRIES,
    ensures
        final(page)@ == with_entries(old(page)@, entries@),
{
    proof {
        reveal(with_entries);
        reveal(with_count);
    }
    let mut slot: usize = 0;
    assert(page@ =~= splice(old(page)@, 8, entries_bytes(entries@.subrange(0, 0))));
    while slot < entries.len()
        invariant
            slot <= entries@.len() <= MAX_ENTRIES,
            page@ == splice(old(page)@, 8, entries_bytes(entries@.subrange(0, slot as int))),
        decreases entries@.len() - slot,
    {
        let ghost before = entries@.subrange(0, slot as int);
        let ghost after = entries@.subrange(0, slot + 1);
        let (key, value) = entries[slot];
        put_entry(page, slot, key, value);
        proof {
            reveal(with_entry);
            let q = splice(old(page)@, 8, entries_bytes(after));
            assert forall|i: int| 0 <= i < PAGE_LEN implies #[trigger] page@[i] == q[i] by {
                if 8 <= i < 8 + 8 * slot {
                    assert((i - 8) / 8 < slot);
                    assert(after[(i - 8) / 8] == before[(i - 8) / 8]);
                } else if 8 + 8 * slot <= i < 16 + 8 * slot {
                    assert((i - 8) / 8 == slot && (i - 8) % 8 == i - (8 + 8 * slot));
                    assert(after[slot as int] == (key, value));
                }
            }
            assert(page@ =~= q);
        }
        slot += 1;
    }
    assert(entries@.subrange(0, slot as int) =~= entries@);
    set_count(page, entries.len());
}

/// Puts an entry in before slot `pos` of a page that holds `count`.
pub fn insert_at(page: &mut Page, count: usize, pos: usize, key: u32, value: u32)
    requires
        count == count_of(old(page)@),
        count < MAX_ENTRIES,
        pos <= count,
    ensures
        final(page)@ == with_inserted(old(page)@, pos as int, key, value),
        page_fits(final(page)@),
{
    proof {
        reveal(with_inserted);
        reveal(with_entry);
        reveal(with_count);
    }
    let from: usize = PAGE_HEADER_LEN + pos * ENTRY_LEN;
    let end: usize = PAGE_HEADER_LEN + count * ENTRY_LEN;
    let ghost block = old(page)@.subrange(from as int, end as int);
    let mut i: usize = end;
    assert(page@ =~= splice(old(page)@, end + 8, block.subrange(end - from, end - from)));
    while from < i
        invariant
            from == 8 + 8 * pos,
            end == 8 + 8 * count,
            pos <= count < MAX_ENTRIES,
            from <= i <= end,
            block == old(page)@.subrange(from as int, end as int),
            page@ == splice(old(page)@, i + 8, block.subrange(i - from, end - from)),
        decreases i,
    {
        i -= 1;
        let b = page[i];
        page[i + 8] = b;
        assert(page@ =~= splice(old(page)@, i + 8, block.subrange(i - from, end - from)));
    }
    assert(block.subrange(0, end - from) =~= block);
    put_entry(page, pos, key, value);
    set_count(page, count + 1);
    proof {
        lemma_with_inserted(old(page)@, pos as int, key, value);
    }
}

/// Takes out the entry in slot `pos` of a page that holds `count`.
pub fn remove_at(page: &mut Page, count: usize, pos: usize)
    requires
        count == count_of(old(page)@),
        count <= MAX_ENTRIES,
        pos < count,
    ensures
        final(page)@ == with_removed(old(page)@, pos as int),
        page_fits(final(page)@),
{
    proof {
        reveal(with_removed);
        reveal(with_count);
    }
    let from: usize = PAGE_HEADER_LEN + (pos + 1) * ENTRY_LEN;
    let end: usize = PAGE_HEADER_LEN + count * ENTRY_LEN;
    let ghost block = old(page)@.subrange(from as int, end as int);
    let mut i: usize = from;
    assert(page@ =~= splice(old(page)@, from - 8, block.subrange(0, 0)));
    while i < end
        invariant
            from == 16 + 8 * pos,
            end == 8 + 8 * count,
            pos < count <= MAX_ENTRIES,
            from <= i <= end,
            block == old(page)@.subrange(from as int, end as int),
            page@ == splice(old(page)@, from - 8, block.subrange(0, i - from)),
        decreases end - i,
    {
        let b = page[i];
        page[i - 8] = b;
        i += 1;
        assert(page@ =~= splice(old(page)@, from - 8, block.subrange(0, i - from)));
    }
    assert(block.subrange(0, end - from) =~= block);
    set_count(page, count - 1);
    proof {
        lemma_with_removed(old(page)@, pos as int);
    }
}

/// The keys of a leaf ascend.
pub open spec fn ascending(entries: Seq<(u32, u32)>) -> bool {
    forall|i: int, j: int| 0 <= i < j < entries.len() ==> entries[i].0 < entries[j].0
}

/// The separators of an interior page ascend. The leftmost may be stale: nothing is asked of it.
pub open spec fn separators_ascend(entries: Seq<(u32, u32)>) -> bool {
    forall|i: int, j: int| 1 <= i < j < entries.len() ==> entries[i].0 < entries[j].0
}

/// The last child whose separator is at most `key`, or child 0. Of separators that do not
/// ascend, a binary search picks the child.
pub open spec fn child_slot(entries: Seq<(u32, u32)>, key: u32) -> int {
    if separators_ascend(entries) {
        last_at_most(entries, key)
    } else {
        let past = probe_past(entries, key, 0, entries.len() as int);
        if past > 0 {
            past - 1
        } else {
            0
        }
    }
}

/// The last slot after the first whose key is at most `key`, or slot 0.
pub open spec fn last_at_most(entries: Seq<(u32, u32)>, key: u32) -> int
    decreases entries.len(),
{
    if entries.len() <= 1 {
        0
    } else if entries.last().0 <= key {
        entries.len() - 1
    } else {
        last_at_most(entries.drop_last(), key)
    }
}

/// Where a binary search for the end of the keys that are at most `key` stops.
pub open spec fn probe_past(entries: Seq<(u32, u32)>, key: u32, lo: int, hi: int) -> int
    decreases hi - lo,
{
    if lo >= hi {
        lo
    } else {
        let mid = lo + (hi - lo) / 2;
        if entries[mid].0 <= key {
            probe_past(entries, key, mid + 1, hi)
        } else {
            probe_past(entries, key, lo, mid)
        }
    }
}

/// What `last_at_most` picks, told by the separators on both sides of it.
pub proof fn lemma_last_at_most(entries: Seq<(u32, u32)>, key: u32, slot: int)
    requires
        separators_ascend(entries),
        0 <= slot,
        slot < entries.len() || slot == 0,
        slot > 0 ==> entries[slot].0 <= key,
        slot + 1 < entries.len() ==> key < entries[slot + 1].0,
    ensures
        last_at_most(entries, key) == slot,
    decreases entries.len(),
{
    if entries.len() > 1 && slot < entries.len() - 1 {
        assert(key < entries.last().0);
        let shorter = entries.drop_last();
        assert forall|i: int, j: int| 1 <= i < j < shorter.len() implies shorter[i].0
            < shorter[j].0 by {
            assert(entries[i].0 < entries[j].0);
        }
        lemma_last_at_most(shorter, key, slot);
    }
}

/// The child that `child_slot` picks is the one whose separators enclose `key`.
pub proof fn lemma_child_slot_encloses(entries: Seq<(u32, u32)>, key: u32)
    requires
        separators_ascend(entries),
        entries.len() >= 1,
    ensures
        0 <= child_slot(entries, key) < entries.len(),
        child_slot(entries, key) > 0 ==> entries[child_slot(entries, key)].0 <= key,
        child_slot(entries, key) + 1 < entries.len() ==> key < entries[child_slot(entries, key)
            + 1].0,
    decreases entries.len(),
{
    if entries.len() > 1 && !(entries.last().0 <= key) {
        let shorter = entries.drop_last();
        assert forall|i: int, j: int| 1 <= i < j < shorter.len() implies shorter[i].0
            < shorter[j].0 by {
            assert(entries[i].0 < entries[j].0);
        }
        lemma_child_slot_encloses(shorter, key);
    }
}

/// The page that a descent for `key` goes on in.
pub open spec fn child_at(p: Seq<u8>, key: u32) -> u32 {
    entry_at(p, child_slot(entries_of(p), key)).1
}

/// How many entries come before `key`.
pub open spec fn rank(e: Seq<(u32, u32)>, key: u32) -> int
    decreases e.len(),
{
    if e.len() == 0 {
        0
    } else if e.last().0 < key {
        e.len() as int
    } else {
        rank(e.drop_last(), key)
    }
}

/// The key stands in the slot of its rank.
pub open spec fn has_key(e: Seq<(u32, u32)>, key: u32) -> bool {
    rank(e, key) < e.len() && e[rank(e, key)].0 == key
}

/// The slot of `key`, or the one that it would take. Of keys that do not ascend, a binary
/// search picks the slot.
pub open spec fn slot_of(e: Seq<(u32, u32)>, key: u32) -> Result<int, int> {
    if ascending(e) {
        if has_key(e, key) {
            Ok(rank(e, key))
        } else {
            Err(rank(e, key))
        }
    } else {
        probe_key(e, key, 0, e.len() as int)
    }
}

/// Where a binary search for `key` stops.
pub open spec fn probe_key(e: Seq<(u32, u32)>, key: u32, lo: int, hi: int) -> Result<int, int>
    decreases hi - lo,
{
    if lo >= hi {
        Err(lo)
    } else {
        let mid = lo + (hi - lo) / 2;
        if e[mid].0 == key {
            Ok(mid)
        } else if e[mid].0 < key {
            probe_key(e, key, mid + 1, hi)
        } else {
            probe_key(e, key, lo, mid)
        }
    }
}

/// The rank of a key is where the smaller keys end.
pub proof fn lemma_rank(e: Seq<(u32, u32)>, key: u32, pos: int)
    requires
        0 <= pos <= e.len(),
        forall|i: int| 0 <= i < pos ==> (#[trigger] e[i]).0 < key,
        forall|i: int| pos <= i < e.len() ==> key <= (#[trigger] e[i]).0,
    ensures
        rank(e, key) == pos,
    decreases e.len(),
{
    if e.len() > 0 {
        if pos == e.len() {
            assert(e[pos - 1].0 < key);
        } else {
            assert(key <= e[e.len() - 1].0);
            lemma_rank(e.drop_last(), key, pos);
        }
    }
}

/// `rank` parts the entries: those before it have smaller keys, the others do not.
pub proof fn lemma_rank_parts(e: Seq<(u32, u32)>, key: u32)
    requires
        ascending(e),
    ensures
        0 <= rank(e, key) <= e.len(),
        forall|i: int| 0 <= i < rank(e, key) ==> (#[trigger] e[i]).0 < key,
        forall|i: int| rank(e, key) <= i < e.len() ==> key <= (#[trigger] e[i]).0,
    decreases e.len(),
{
    if e.len() > 0 {
        if e.last().0 < key {
            assert forall|i: int| 0 <= i < e.len() implies (#[trigger] e[i]).0 < key by {
                if i < e.len() - 1 {
                    assert(e[i].0 < e[e.len() - 1].0);
                }
            }
        } else {
            let d = e.drop_last();
            assert forall|i: int, j: int| 0 <= i < j < d.len() implies d[i].0 < d[j].0 by {
                assert(e[i].0 < e[j].0);
            }
            lemma_rank_parts(d, key);
            assert forall|i: int| rank(e, key) <= i < e.len() implies key <= (#[trigger] e[i]).0 by {
                if i < e.len() - 1 {
                    assert(key <= d[i].0);
                }
            }
            assert forall|i: int| 0 <= i < rank(e, key) implies (#[trigger] e[i]).0 < key by {
                assert(d[i].0 < key);
            }
        }
    }
}

/// Last child whose separator is <= `key`, clamped to child 0. The clamp is what lets the
/// leftmost separator be stale: anything below the whole subtree still lands in child 0.
pub fn descend_slot(page: &Page, count: usize, key: u32) -> (slot: usize)
    requires
        count == count_of(page@),
        count <= MAX_ENTRIES,
    ensures
        slot < count || slot == 0,
        slot == child_slot(entries_of(page@), key),
{
    let ghost e = entries_of(page@);
    proof {
        lemma_entries_len(page@);
    }
    let mut lo: usize = 0;
    let mut hi: usize = count;
    while lo < hi
        invariant
            count == count_of(page@) == e.len(),
            count <= MAX_ENTRIES,
            e == entries_of(page@),
            lo <= hi <= count,
            probe_past(e, key, lo as int, hi as int) == probe_past(e, key, 0, count as int),
            separators_ascend(e) ==> {
                &&& lo > 1 ==> e[lo - 1].0 <= key
                &&& 1 <= hi < count ==> key < e[hi as int].0
                &&& hi == 0 && count > 1 ==> key < e[1].0
            },
        decreases hi - lo,
    {
        proof {
            lemma_entries_len(page@);
        }
        let mid: usize = lo + (hi - lo) / 2;
        assert(e[mid as int] == entry_at(page@, mid as int));
        if get_key(page, mid) <= key {
            lo = mid + 1;
        } else {
            hi = mid;
        }
    }
    let slot: usize = if lo > 0 {
        lo - 1
    } else {
        0
    };
    proof {
        if separators_ascend(e) {
            lemma_last_at_most(e, key, slot as int);
        }
    }
    slot
}

/// `Ok(slot)` if the key is present, `Err(slot)` with the position it would occupy if not.
pub fn leaf_slot(page: &Page, count: usize, key: u32) -> (found: Result<usize, usize>)
    requires
        count == count_of(page@),
        count <= MAX_ENTRIES,
    ensures
        match found {
            Ok(slot) => slot < count && slot_of(entries_of(page@), key) == Ok::<int, int>(
                slot as int,
            ),
            Err(slot) => slot <= count && slot_of(entries_of(page@), key) == Err::<int, int>(
                slot as int,
            ),
        },
{
    let ghost e = entries_of(page@);
    proof {
        lemma_entries_len(page@);
    }
    let mut lo: usize = 0;
    let mut hi: usize = count;
    while lo < hi
        invariant
            count == count_of(page@) == e.len(),
            count <= MAX_ENTRIES,
            e == entries_of(page@),
            lo <= hi <= count,
            probe_key(e, key, lo as int, hi as int) == probe_key(e, key, 0, count as int),
            ascending(e) ==> {
                &&& forall|i: int| 0 <= i < lo ==> e[i].0 < key
                &&& forall|i: int| hi <= i < count ==> key < e[i].0
            },
        decreases hi - lo,
    {
        proof {
            lemma_entries_len(page@);
        }
        let mid: usize = lo + (hi - lo) / 2;
        let found: u32 = get_key(page, mid);
        assert(e[mid as int] == entry_at(page@, mid as int));
        if found == key {
            proof {
                if ascending(e) {
                    lemma_rank(e, key, mid as int);
                }
            }
            return Ok(mid);
        }
        if found < key {
            lo = mid + 1;
        } else {
            hi = mid;
        }
    }
    proof {
        if ascending(e) {
            lemma_rank(e, key, lo as int);
        }
    }
    Err(lo)
}

/// Where a page stands in the index file.
pub fn page_at(id: u32) -> (at: u64)
    ensures
        at == id * PAGE_LEN,
{
    assert(PAGE_LEN == 4096);
    assert(0 <= id as int * 4096 <= u64::MAX);
    id as u64 * PAGE_LEN as u64
}

} // verus!
