//! Page 0 of the index: everything about the tree that is not in a tree page.

use super::page::{init_page, Page, MAGIC_HEAD, MAGIC_OFFSET, PAGE_HEADER_LEN, PAGE_LEN};
use super::page::{blank, lemma_blank};
use crate::data::util::{u32_from_pos, u32_write_at, u64_from_pos, u64_write_at};
use crate::error::Error;
use crate::le::{le32, le32_bytes, le64, le64_bytes, splice};
use crate::le::{lemma_le32_of_bytes, lemma_le64_of_bytes};
use vstd::prelude::*;

verus! {

pub const FORMAT_VERSION: u32 = 2;

#[derive(Debug, Clone, Copy, PartialEq, Eq, Structural)]
pub struct Header {
    pub root: u32,
    pub height: u32,
    pub first_leaf: u32,
    pub next_page: u32,
    pub leaf_cnt: u32,
    pub entry_cnt: u64,
    pub min_key: u32,
    pub max_key: u32,
    pub source_len: u64,
    pub source_frame_cnt: u32,
    pub clean: bool,
}

/// 32-bit integers, one after the other.
pub open spec fn le32_row(ns: Seq<u32>) -> Seq<u8> {
    Seq::new(4 * ns.len(), |i: int| le32_bytes(ns[i / 4])[i % 4])
}

/// The fields of `h` as they stand in page 0, from byte 8 on: six integers of 32 bits, two of 64,
/// four of 32, and the clean flag.
pub open spec fn header_body(h: Header) -> Seq<u8> {
    let front = seq![
        FORMAT_VERSION,
        PAGE_LEN as u32,
        h.root,
        h.height,
        h.first_leaf,
        h.next_page,
    ];
    let back = seq![h.source_frame_cnt, h.leaf_cnt, h.min_key, h.max_key];
    le32_row(front) + le64_bytes(h.entry_cnt) + le64_bytes(h.source_len) + le32_row(back) + seq![
        if h.clean {
            1u8
        } else {
            0u8
        },
    ]
}

/// Page 0 for the header `h`.
pub open spec fn header_page(h: Header) -> Seq<u8> {
    splice(blank(MAGIC_HEAD, 0), 8, header_body(h))
}

/// The fields that page 0 holds.
pub open spec fn header_fields(p: Seq<u8>) -> Header {
    Header {
        root: le32(p, 16),
        height: le32(p, 20),
        first_leaf: le32(p, 24),
        next_page: le32(p, 28),
        entry_cnt: le64(p, 32),
        source_len: le64(p, 40),
        source_frame_cnt: le32(p, 48),
        leaf_cnt: le32(p, 52),
        min_key: le32(p, 56),
        max_key: le32(p, 60),
        clean: p[64] != 0,
    }
}

/// What a page 0 says: the header, or why it is none.
pub open spec fn header_of(p: Seq<u8>) -> Result<Header, Error> {
    if p[0] != MAGIC_HEAD {
        Err(Error::NotAnIndex)
    } else if le32(p, 8) != FORMAT_VERSION {
        Err(Error::IndexVersion { version: le32(p, 8), expected: FORMAT_VERSION })
    } else if le32(p, 12) != PAGE_LEN {
        Err(Error::IndexPageSize { size: le32(p, 12), expected: PAGE_LEN as u32 })
    } else {
        Ok(header_fields(p))
    }
}

/// An integer of a row is read back where it stands.
proof fn lemma_le32_row(p: Seq<u8>, at: int, ns: Seq<u32>, i: int)
    requires
        0 <= at,
        at + 4 * ns.len() <= p.len(),
        p.subrange(at, at + 4 * ns.len()) == le32_row(ns),
        0 <= i < ns.len(),
    ensures
        le32(p, at + 4 * i) == ns[i],
{
    let row = le32_row(ns);
    let b = le32_bytes(ns[i]);
    assert forall|j: int| 0 <= j < 4 implies #[trigger] p[at + 4 * i + j] == b[j] by {
        assert((4 * i + j) / 4 == i && (4 * i + j) % 4 == j);
        assert(p[at + 4 * i + j] == row[4 * i + j]);
    }
    let q = p.subrange(at + 4 * i, at + 4 * i + 4);
    assert(q[0] == p[at + 4 * i + 0] && q[1] == p[at + 4 * i + 1]);
    assert(q[2] == p[at + 4 * i + 2] && q[3] == p[at + 4 * i + 3]);
    assert(q =~= b);
    lemma_le32_of_bytes(p, at + 4 * i, ns[i]);
}

/// A header that was written as page 0 is read back as that header.
#[verifier::spinoff_prover]
pub proof fn law_header_round_trip(h: Header)
    ensures
        header_of(header_page(h)) == Ok::<Header, Error>(h),
{
    let p = header_page(h);
    let b = header_body(h);
    lemma_blank(MAGIC_HEAD, 0);
    let front = seq![
        FORMAT_VERSION,
        PAGE_LEN as u32,
        h.root,
        h.height,
        h.first_leaf,
        h.next_page,
    ];
    let back = seq![h.source_frame_cnt, h.leaf_cnt, h.min_key, h.max_key];
    assert(b.len() == 57);
    assert(p.subrange(8, 32) =~= le32_row(front));
    assert(p.subrange(32, 40) =~= le64_bytes(h.entry_cnt));
    assert(p.subrange(40, 48) =~= le64_bytes(h.source_len));
    assert(p.subrange(48, 64) =~= le32_row(back));
    assert(p[64] == b[56]);
    assert(p[0] == MAGIC_HEAD);
    lemma_le64_of_bytes(p, 32, h.entry_cnt);
    lemma_le64_of_bytes(p, 40, h.source_len);
    lemma_le32_row(p, 8, front, 0);
    lemma_le32_row(p, 8, front, 1);
    lemma_le32_row(p, 8, front, 2);
    lemma_le32_row(p, 8, front, 3);
    lemma_le32_row(p, 8, front, 4);
    lemma_le32_row(p, 8, front, 5);
    lemma_le32_row(p, 48, back, 0);
    lemma_le32_row(p, 48, back, 1);
    lemma_le32_row(p, 48, back, 2);
    lemma_le32_row(p, 48, back, 3);
}

impl Header {
    #[verifier::spinoff_prover]
    pub fn encode(&self) -> (page: Box<Page>)
        ensures
            page@ == header_page(*self),
    {
        let mut page: Page = [0u8;PAGE_LEN];
        init_page(&mut page, MAGIC_HEAD, 0);
        let mut at: usize = PAGE_HEADER_LEN;
        at += u32_write_at(&mut page, at, FORMAT_VERSION);
        at += u32_write_at(&mut page, at, PAGE_LEN as u32);
        at += u32_write_at(&mut page, at, self.root);
        at += u32_write_at(&mut page, at, self.height);
        at += u32_write_at(&mut page, at, self.first_leaf);
        at += u32_write_at(&mut page, at, self.next_page);
        at += u64_write_at(&mut page, at, self.entry_cnt);
        at += u64_write_at(&mut page, at, self.source_len);
        at += u32_write_at(&mut page, at, self.source_frame_cnt);
        at += u32_write_at(&mut page, at, self.leaf_cnt);
        at += u32_write_at(&mut page, at, self.min_key);
        at += u32_write_at(&mut page, at, self.max_key);
        page[at] = if self.clean {
            1
        } else {
            0
        };
        proof {
            lemma_blank(MAGIC_HEAD, 0);
            let b = header_body(*self);
            assert(b.len() == 57);
            assert forall|i: int| 0 <= i < PAGE_LEN implies #[trigger] page@[i] == header_page(
                *self,
            )[i] by {
                if 8 <= i < 65 {
                    assert(header_page(*self)[i] == b[i - 8]);
                }
            }
            assert(page@ =~= header_page(*self));
        }
        Box::new(page)
    }

    pub fn decode(page: &Page) -> (header: Result<Header, Error>)
        ensures
            header == header_of(page@),
    {
        if page[MAGIC_OFFSET] != MAGIC_HEAD {
            return Err(Error::NotAnIndex);
        }
        let version: u32 = u32_from_pos(page, PAGE_HEADER_LEN);
        if version != FORMAT_VERSION {
            return Err(Error::IndexVersion { version, expected: FORMAT_VERSION });
        }
        let size: u32 = u32_from_pos(page, PAGE_HEADER_LEN + 4);
        if size as usize != PAGE_LEN {
            return Err(Error::IndexPageSize { size, expected: PAGE_LEN as u32 });
        }
        Ok(
            Header {
                root: u32_from_pos(page, 16),
                height: u32_from_pos(page, 20),
                first_leaf: u32_from_pos(page, 24),
                next_page: u32_from_pos(page, 28),
                entry_cnt: u64_from_pos(page, 32),
                source_len: u64_from_pos(page, 40),
                source_frame_cnt: u32_from_pos(page, 48),
                leaf_cnt: u32_from_pos(page, 52),
                min_key: u32_from_pos(page, 56),
                max_key: u32_from_pos(page, 60),
                clean: page[64] != 0,
            },
        )
    }
}

} // verus!
