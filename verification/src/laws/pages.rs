//! How the pages of an index lie in its file, and how they come and go in the pool.

use crate::error::Error;
use crate::le::{le16, le32, le64, splice};
use crate::pkindex::bulk::BULK_FILL;
use crate::pkindex::header::{header_body, header_of, header_page, law_header_round_trip, Header};
use crate::pkindex::index::{PkIndex, DEFAULT_CACHE_PAGES, MAX_HEIGHT};
use crate::pkindex::ops::leaf_halves;
use crate::pkindex::page::{
    ascending, blank, child_slot, count_of, entries_of, has_key, lemma_blank,
    lemma_child_slot_encloses, lemma_entries_len, lemma_rank_parts, lemma_with_entries,
    lemma_with_inserted, lemma_with_next, lemma_with_removed, lemma_with_value, level_of, next_of,
    page_fits, rank, separators_ascend, slot_of, with_entries, with_inserted, with_next,
    with_removed, with_value, MAGIC_HEAD, MAGIC_LEAF, MAGIC_NODE, MAX_ENTRIES, NO_PAGE, PAGE_LEN,
};
use crate::pkindex::pool::Clock;
use crate::pkindex::tree::Pages;
use vstd::math::max;
use vstd::prelude::*;

verus! {

// -- sizes -------------------------------------------------------------------------------

/// Pages are of 4096 bytes and hold up to 511 entries, of which a load fills 357. Their kinds are
/// told by an X for page 0, an N for a node and an L for a leaf.
pub proof fn law_page_sizes()
    ensures
        PAGE_LEN == 4096,
        MAX_ENTRIES == 511,
        BULK_FILL == 357,
        MAX_HEIGHT == 16,
        DEFAULT_CACHE_PAGES == 4096,
        NO_PAGE == 0xffff_ffff,
        MAGIC_HEAD == 0x58,
        MAGIC_NODE == 0x4e,
        MAGIC_LEAF == 0x4c,
{
    assert(BULK_FILL == 357) by (nonlinear_arith)
        requires
            MAX_ENTRIES == 511,
    ;
}

/// A pool takes as many pages as it was asked to, but never fewer than eight.
pub proof fn law_cache_limit(index: PkIndex, h: Header, cache_pages: usize)
    requires
        index.is_new(h, cache_pages),
    ensures
        index.cache_limit() == max(8, cache_pages as int),
        index.cached().dom() =~= Set::<u32>::empty(),
        index.dirty() =~= Set::<u32>::empty(),
        index.stats().0 == 0 && index.stats().1 == 0,
        index.head() == h,
{
}

// -- page 0 ------------------------------------------------------------------------------

/// Where the fields of a header stand in page 0. All other bytes are those of an empty page.
pub proof fn law_header_layout(h: Header)
    ensures
        ({
            let p = header_page(h);
            &&& p.len() == 4096
            &&& p[0] == 0x58
            &&& le32(p, 8) == 2
            &&& le32(p, 12) == 4096
            &&& le32(p, 16) == h.root
            &&& le32(p, 20) == h.height
            &&& le32(p, 24) == h.first_leaf
            &&& le32(p, 28) == h.next_page
            &&& le64(p, 32) == h.entry_cnt
            &&& le64(p, 40) == h.source_len
            &&& le32(p, 48) == h.source_frame_cnt
            &&& le32(p, 52) == h.leaf_cnt
            &&& le32(p, 56) == h.min_key
            &&& le32(p, 60) == h.max_key
            &&& p[64] == if h.clean {
                1u8
            } else {
                0u8
            }
            &&& forall|i: int| 65 <= i < 4096 ==> #[trigger] p[i] == 0
        }),
{
    law_header_round_trip(h);
    lemma_header_fields(header_page(h), h);
    lemma_header_end(h);
}

/// The fields of a page 0 that says `h`.
proof fn lemma_header_fields(p: Seq<u8>, h: Header)
    requires
        header_of(p) == Ok::<Header, Error>(h),
    ensures
        p[0] == 0x58,
        le32(p, 8) == 2,
        le32(p, 12) == 4096,
        le32(p, 16) == h.root,
        le32(p, 20) == h.height,
        le32(p, 24) == h.first_leaf,
        le32(p, 28) == h.next_page,
        le64(p, 32) == h.entry_cnt,
        le64(p, 40) == h.source_len,
        le32(p, 48) == h.source_frame_cnt,
        le32(p, 52) == h.leaf_cnt,
        le32(p, 56) == h.min_key,
        le32(p, 60) == h.max_key,
{
}

/// The end of page 0, from the clean flag on.
proof fn lemma_header_end(h: Header)
    ensures
        header_page(h).len() == 4096,
        header_page(h)[64] == if h.clean {
            1u8
        } else {
            0u8
        },
        forall|i: int| 65 <= i < 4096 ==> #[trigger] header_page(h)[i] == 0,
{
    law_blank_page(MAGIC_HEAD, 0);
    let body = header_body(h);
    let page = blank(MAGIC_HEAD, 0);
    assert(body.len() == 57);
    assert(body[56] == if h.clean {
        1u8
    } else {
        0u8
    });
    lemma_spliced(page, body);
}

proof fn lemma_spliced(page: Seq<u8>, body: Seq<u8>)
    requires
        page.len() == 4096,
        body.len() == 57,
        forall|i: int| 8 <= i < 4096 ==> #[trigger] page[i] == 0,
    ensures
        splice(page, 8, body).len() == 4096,
        splice(page, 8, body)[64] == body[56],
        forall|i: int| 65 <= i < 4096 ==> #[trigger] splice(page, 8, body)[i] == 0,
{
}

/// What a page 0 says, whatever it is: it is none without the X at its front, none of another format
/// version and none of another page size, in this order. Otherwise every field is read from its
/// place.
pub proof fn law_header_read(p: Seq<u8>)
    ensures
        header_of(p) == if p[0] != 0x58 {
            Err::<Header, Error>(Error::NotAnIndex)
        } else if le32(p, 8) != 2 {
            Err(Error::IndexVersion { version: le32(p, 8), expected: 2 })
        } else if le32(p, 12) != 4096 {
            Err(Error::IndexPageSize { size: le32(p, 12), expected: 4096 })
        } else {
            Ok(
                Header {
                    root: le32(p, 16),
                    height: le32(p, 20),
                    first_leaf: le32(p, 24),
                    next_page: le32(p, 28),
                    leaf_cnt: le32(p, 52),
                    entry_cnt: le64(p, 32),
                    min_key: le32(p, 56),
                    max_key: le32(p, 60),
                    source_len: le64(p, 40),
                    source_frame_cnt: le32(p, 48),
                    clean: p[64] != 0,
                },
            )
        },
{
}

// -- tree pages --------------------------------------------------------------------------

/// Where the parts of a tree page stand: the level in byte 1, the number of entries in bytes 2 and
/// 3, the sibling in bytes 4 to 7, and entry `i` in the eight bytes from `8 + 8 * i` on, its key
/// before its value.
pub proof fn law_page_layout(p: Seq<u8>)
    ensures
        level_of(p) == p[1],
        count_of(p) == le16(p, 2),
        next_of(p) == le32(p, 4),
        entries_of(p).len() == le16(p, 2),
        forall|i: int|
            0 <= i < le16(p, 2) ==> (#[trigger] entries_of(p)[i]).0 == le32(p, 8 + 8 * i)
                && entries_of(p)[i].1 == le32(p, 12 + 8 * i),
        page_fits(p) <==> p.len() == 4096 && le16(p, 2) <= 511,
{
    lemma_entries_len(p);
}

/// An empty page: its kind, its level, no entry, no sibling, and zeros.
pub proof fn law_blank_page(magic: u8, level: u8)
    ensures
        ({
            let p = blank(magic, level);
            &&& p.len() == 4096
            &&& p[0] == magic
            &&& p[1] == level
            &&& le16(p, 2) == 0
            &&& le32(p, 4) == 0xffff_ffff
            &&& forall|i: int| 8 <= i < 4096 ==> #[trigger] p[i] == 0
        }),
{
    lemma_blank(magic, level);
    reveal(blank);
    let p = blank(magic, level);
    assert(p[2] == 0 && p[3] == 0);
}

/// What the changes of a page do to its entries, and that they touch nothing else of it.
pub proof fn law_page_changed(p: Seq<u8>, pos: int, key: u32, value: u32)
    requires
        page_fits(p),
        0 <= pos <= entries_of(p).len(),
    ensures
        entries_of(with_next(p, value)) == entries_of(p) && next_of(with_next(p, value)) == value,
        with_next(p, value)[0] == p[0] && with_next(p, value)[1] == p[1],
        pos < entries_of(p).len() ==> {
            let q = with_value(p, pos, value);
            &&& entries_of(q) == entries_of(p).update(pos, (entries_of(p)[pos].0, value))
            &&& (q[0], q[1], next_of(q), q.len()) == (p[0], p[1], next_of(p), 4096nat)
        },
        pos < entries_of(p).len() ==> {
            let q = with_removed(p, pos);
            &&& entries_of(q) == entries_of(p).remove(pos)
            &&& (q[0], q[1], next_of(q), q.len()) == (p[0], p[1], next_of(p), 4096nat)
        },
        entries_of(p).len() < 511 ==> {
            let q = with_inserted(p, pos, key, value);
            &&& entries_of(q) == entries_of(p).insert(pos, (key, value))
            &&& (q[0], q[1], next_of(q), q.len()) == (p[0], p[1], next_of(p), 4096nat)
        },
{
    lemma_entries_len(p);
    lemma_with_next(p, value);
    if pos < entries_of(p).len() {
        lemma_with_value(p, pos, value);
        lemma_with_removed(p, pos);
    }
    if entries_of(p).len() < 511 {
        lemma_with_inserted(p, pos, key, value);
    }
}

/// A page that is filled has just those entries.
pub proof fn law_page_filled(p: Seq<u8>, entries: Seq<(u32, u32)>)
    requires
        p.len() == 4096,
        entries.len() <= 511,
    ensures
        ({
            let q = with_entries(p, entries);
            &&& entries_of(q) == entries
            &&& (q[0], q[1], next_of(q), q.len()) == (p[0], p[1], next_of(p), 4096nat)
        }),
{
    lemma_with_entries(p, entries);
}

/// A key is found in the slot that has it. One that is not there goes behind the smaller keys and
/// before the larger ones.
pub proof fn law_leaf_slot(e: Seq<(u32, u32)>, key: u32)
    requires
        forall|i: int, j: int| 0 <= i < j < e.len() ==> (#[trigger] e[i]).0 < (#[trigger] e[j]).0,
    ensures
        match slot_of(e, key) {
            Ok(slot) => 0 <= slot < e.len() && e[slot].0 == key,
            Err(slot) => {
                &&& 0 <= slot <= e.len()
                &&& forall|i: int| 0 <= i < slot ==> (#[trigger] e[i]).0 < key
                &&& forall|i: int| slot <= i < e.len() ==> key < (#[trigger] e[i]).0
            },
        },
{
    assert(ascending(e));
    lemma_rank_parts(e, key);
    if !has_key(e, key) {
        let slot = rank(e, key);
        assert forall|i: int| slot <= i < e.len() implies key < (#[trigger] e[i]).0 by {
            if i > slot {
                assert(e[slot].0 < e[i].0);
            }
        }
    }
}

/// A descent goes to the last child whose separator is not above the key, or to the first.
pub proof fn law_child_slot(e: Seq<(u32, u32)>, key: u32)
    requires
        e.len() >= 1,
        forall|i: int, j: int| 1 <= i < j < e.len() ==> (#[trigger] e[i]).0 < (#[trigger] e[j]).0,
    ensures
        0 <= child_slot(e, key) < e.len(),
        child_slot(e, key) > 0 ==> e[child_slot(e, key)].0 <= key,
        forall|i: int| child_slot(e, key) < i < e.len() ==> key < (#[trigger] e[i]).0,
{
    assert(separators_ascend(e));
    lemma_child_slot_encloses(e, key);
    let slot = child_slot(e, key);
    assert forall|i: int| slot < i < e.len() implies key < (#[trigger] e[i]).0 by {
        if i > slot + 1 {
            assert(e[slot + 1].0 < e[i].0);
        }
    }
}

/// A leaf that was full and got one more is in two halves of 256 entries each, the lower ones where
/// it was. The new leaf has its old sibling and is its new one.
pub proof fn law_leaf_halves(pages: Pages, leaf: u32, right: u32, m: Seq<(u32, u32)>)
    requires
        page_fits(pages[leaf]),
        m.len() == 512,
        leaf != right,
    ensures
        ({
            let after = leaf_halves(pages, leaf, right, m);
            &&& entries_of(after[leaf]).len() == 256
            &&& entries_of(after[right]).len() == 256
            &&& entries_of(after[leaf]) + entries_of(after[right]) == m
            &&& next_of(after[leaf]) == right
            &&& next_of(after[right]) == next_of(pages[leaf])
            &&& after[right][0] == 0x4c
            &&& after[right][1] == 0
            &&& forall|id: u32| id != leaf && id != right && pages.contains_key(id)
                ==> after.contains_key(id) && #[trigger] after[id] == pages[id]
        }),
{
    let p = pages[leaf];
    let a = m.take(256);
    let b = m.skip(256);
    lemma_with_entries(p, a);
    lemma_with_next(with_entries(p, a), right);
    lemma_blank(MAGIC_LEAF, 0);
    lemma_with_entries(blank(MAGIC_LEAF, 0), b);
    lemma_with_next(with_entries(blank(MAGIC_LEAF, 0), b), next_of(p));
    assert(a + b =~= m);
}

// -- the pool ----------------------------------------------------------------------------

/// A page that is used is marked; nothing else changes.
pub proof fn law_touched(c: Clock, slot: int)
    requires
        c.used.len() == c.ids.len(),
        0 <= slot < c.ids.len(),
        forall|i: int, j: int|
            0 <= i < j < c.ids.len() ==> #[trigger] c.ids[i] != #[trigger] c.ids[j],
    ensures
        ({
            let after = c.touched(c.ids[slot]);
            &&& after.ids == c.ids
            &&& after.hand == c.hand
            &&& after.used.len() == c.used.len()
            &&& after.used[slot]
            &&& forall|i: int|
                0 <= i < c.used.len() && i != slot ==> #[trigger] after.used[i] == c.used[i]
        }),
{
    let at = c.ids.index_of(c.ids[slot]);
    assert(c.ids.contains(c.ids[slot]));
    assert(0 <= at < c.ids.len() && c.ids[at] == c.ids[slot]);
}

/// A page that comes in is marked. While there are slots left it takes a new one; then it takes the
/// one under the hand, which moves on.
pub proof fn law_entered(c: Clock, id: u32, limit: nat)
    requires
        c.used.len() == c.ids.len(),
        c.ids.len() <= limit,
        c.ids.len() == limit ==> 0 <= c.hand < limit,
    ensures
        ({
            let after = c.entered(id, limit);
            let slot = if c.ids.len() < limit {
                c.ids.len() as int
            } else {
                c.hand
            };
            &&& after.ids[slot] == id
            &&& after.used[slot]
            &&& after.ids.len() == after.used.len() == if c.ids.len() < limit {
                c.ids.len() + 1
            } else {
                limit
            }
            &&& after.hand == if c.ids.len() < limit {
                c.hand
            } else if c.hand + 1 == limit {
                0
            } else {
                c.hand + 1
            }
            &&& forall|i: int|
                0 <= i < c.ids.len() && i != slot ==> #[trigger] after.ids[i] == c.ids[i]
                    && after.used[i] == c.used[i]
        }),
{
}

/// The hand moves only where the pool is full.
pub proof fn law_room(c: Clock, limit: nat)
    ensures
        c.ids.len() < limit ==> c.with_room(limit) == c,
        c.ids.len() >= limit ==> c.with_room(limit) == c.swept(),
{
}

} // verus!
