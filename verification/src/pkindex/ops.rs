//! What the operations do to the tree pages and to the header.

use super::header::Header;
use super::page::{
    blank, child_at, child_slot, count_of, entries_of, level_of, next_of, slot_of, with_entries,
    with_inserted, with_next, with_removed, with_value, MAGIC_LEAF, MAGIC_NODE, MAX_ENTRIES,
};
use super::tree::{
    depth_of, leaf_for, Pages,
};
use vstd::prelude::*;

verus! {

/// The nodes and slots that a descent for `key` passes, from page `id` down `left` levels.
pub open spec fn path_for(pages: Pages, id: u32, left: nat, key: u32) -> Seq<(u32, usize)>
    decreases left,
{
    if left == 0 {
        Seq::empty()
    } else {
        let e = entries_of(pages[id]);
        let slot = child_slot(e, key);
        seq![(id, slot as usize)] + path_for(
            pages,
            child_at(pages[id], key),
            (left - 1) as nat,
            key,
        )
    }
}

/// A new root over the two halves of the old one.
pub open spec fn root_page(h: Header, left_separator: u32, separator: u32, child: u32) -> Seq<u8> {
    with_entries(
        blank(MAGIC_NODE, h.height as u8),
        seq![(left_separator, h.root), (separator, child)],
    )
}

/// The new child entered into the parents along `path`, which split where they are full, and a
/// new root raised if the split reaches the top. `None` if a parent does not have the slot that
/// the path goes through.
pub open spec fn grow(
    pages: Pages,
    h: Header,
    path: Seq<(u32, usize)>,
    left_separator: u32,
    separator: u32,
    child: u32,
) -> Option<(Pages, Header)>
    decreases path.len(),
{
    if path.len() == 0 {
        Some(
            (
                pages.insert(h.next_page, root_page(h, left_separator, separator, child)),
                Header {
                    root: h.next_page,
                    height: (h.height + 1) as u32,
                    next_page: (h.next_page + 1) as u32,
                    ..h
                },
            ),
        )
    } else {
        let (node, slot) = path.last();
        let p = pages[node];
        let e = entries_of(p);
        let pos = slot + 1;
        if pos > e.len() {
            None
        } else if e.len() < MAX_ENTRIES {
            Some((pages.insert(node, with_inserted(p, pos, separator, child)), h))
        } else {
            let merged = e.insert(pos, (separator, child));
            let mid = merged.len() as int / 2;
            let right = h.next_page;
            grow(
                pages.insert(node, with_entries(p, merged.take(mid))).insert(
                    right,
                    with_entries(blank(MAGIC_NODE, level_of(p)), merged.skip(mid)),
                ),
                Header { next_page: (h.next_page + 1) as u32, ..h },
                path.drop_last(),
                merged[0].0,
                merged[mid].0,
                right,
            )
        }
    }
}

/// A full leaf split around a new entry, which goes before slot `pos`.
pub open spec fn split_leaf(
    pages: Pages,
    h: Header,
    leaf: u32,
    path: Seq<(u32, usize)>,
    pos: int,
    key: u32,
    value: u32,
) -> Option<(Pages, Header)> {
    let m = entries_of(pages[leaf]).insert(pos, (key, value));
    let mid = m.len() as int / 2;
    let right = h.next_page;
    grow(
        leaf_halves(pages, leaf, right, m),
        Header {
            next_page: (h.next_page + 1) as u32,
            leaf_cnt: (h.leaf_cnt + 1) as u32,
            ..h
        },
        path,
        m[0].0,
        m[mid].0,
        right,
    )
}

/// A leaf in two halves: `m` are its entries and the one that found no room, `right` is the new
/// page.
pub open spec fn leaf_halves(pages: Pages, leaf: u32, right: u32, m: Seq<(u32, u32)>) -> Pages {
    let p = pages[leaf];
    let mid = m.len() as int / 2;
    pages.insert(leaf, with_next(with_entries(p, m.take(mid)), right)).insert(
        right,
        with_next(with_entries(blank(MAGIC_LEAF, 0), m.skip(mid)), next_of(p)),
    )
}

/// One more entry, with the key `key`.
pub open spec fn counted(h: Header, key: u32) -> Header {
    let n = (h.entry_cnt + 1) as u64;
    if n == 1 {
        Header { entry_cnt: n, min_key: key, max_key: key, ..h }
    } else {
        Header {
            entry_cnt: n,
            min_key: if key < h.min_key {
                key
            } else {
                h.min_key
            },
            max_key: if key > h.max_key {
                key
            } else {
                h.max_key
            },
            ..h
        }
    }
}

/// The outcome of an insertion that left the index as `grown`.
pub open spec fn inserted(grown: Option<(Pages, Header)>, key: u32) -> Option<
    (Pages, Header, bool),
> {
    match grown {
        Some((pages, h)) => Some((pages, counted(h, key), true)),
        None => None,
    }
}

/// The entry put into the leaf that a descent along `path` ended in. The last component tells
/// whether the key is new.
pub open spec fn upsert_leaf(
    pages: Pages,
    h: Header,
    leaf: u32,
    path: Seq<(u32, usize)>,
    key: u32,
    value: u32,
) -> Option<(Pages, Header, bool)> {
    let p = pages[leaf];
    match slot_of(entries_of(p), key) {
        Ok(pos) => Some((pages.insert(leaf, with_value(p, pos, value)), h, false)),
        Err(pos) => if count_of(p) < MAX_ENTRIES {
            inserted(Some((pages.insert(leaf, with_inserted(p, pos, key, value)), h)), key)
        } else {
            inserted(split_leaf(pages, h, leaf, path, pos, key, value), key)
        },
    }
}

/// A header that says that the index is open for writing.
pub open spec fn opened(h: Header) -> Header {
    Header { clean: false, ..h }
}

/// The index after `key` was made to stand for `value`, and whether the key is new. `None` if
/// the index contradicts itself.
pub open spec fn upserted(pages: Pages, h: Header, key: u32, value: u32) -> Option<
    (Pages, Header, bool),
> {
    upsert_leaf(
        pages,
        opened(h),
        leaf_for(pages, h.root, depth_of(h), key),
        path_for(pages, h.root, depth_of(h), key),
        key,
        value,
    )
}

/// The entry of `key` taken out of a leaf. The last component tells whether it was there.
pub open spec fn remove_leaf(pages: Pages, h: Header, leaf: u32, key: u32) -> Option<
    (Pages, Header, bool),
> {
    let p = pages[leaf];
    match slot_of(entries_of(p), key) {
        Ok(pos) => if h.entry_cnt > 0 {
            Some(
                (
                    pages.insert(leaf, with_removed(p, pos)),
                    Header { entry_cnt: (h.entry_cnt - 1) as u64, ..h },
                    true,
                ),
            )
        } else {
            None
        },
        Err(_) => Some((pages, h, false)),
    }
}

/// The index after `key` was removed, and whether it was there. `None` if the index contradicts
/// itself.
pub open spec fn removed(pages: Pages, h: Header, key: u32) -> Option<(Pages, Header, bool)> {
    remove_leaf(pages, opened(h), leaf_for(pages, h.root, depth_of(h), key), key)
}

} // verus!
