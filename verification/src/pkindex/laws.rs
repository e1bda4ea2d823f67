//! The laws of the operations: they keep the index an index and change its map as they should.

use super::growth::{
    lemma_grow, lemma_leaf_get_inserted, lemma_leaf_get_removed, lemma_leaf_get_updated,
    lemma_leaf_halves, lemma_path_for, lemma_replace_leaf, lemma_same_leaves_held, lemma_split_leaf,
    overfull, path_ok, split_spans,
};
use super::header::Header;
use super::limits::{law_height, law_page_cnt, lemma_below};
use super::ops::{
    counted, leaf_halves, opened, path_for, removed, split_leaf, upserted,
};
use super::page::{
    count_of, entries_of, lemma_entries_len, lemma_rank_parts, lemma_with_inserted,
    lemma_with_removed, lemma_with_value, rank, slot_of, with_inserted, with_removed, with_value,
    MAX_ENTRIES,
};
use super::tree::{
    contents, counts_ok, depth_of, get, held, held_at, leaf_for, leaf_get, leaves, lemma_get_held,
    lemma_leaf_for, node_ok, spans_ok, tree_ok, Pages, Spans,
};
use vstd::prelude::*;

verus! {

/// The map of a tree depends on the header only by the root and the height.
pub proof fn lemma_contents_root(pages: Pages, h: Header, h2: Header)
    requires
        h2.root == h.root,
        h2.height == h.height,
    ensures
        contents(pages, h2) == contents(pages, h),
{
    assert(contents(pages, h2) =~= contents(pages, h));
}

/// The counters of an index have room for one more leaf and one more entry.
pub proof fn lemma_counters_bounded(pages: Pages, h: Header)
    requires
        tree_ok(pages, h),
    ensures
        h.leaf_cnt <= h.next_page,
        h.entry_cnt <= 0x1_0000_0000,
{
    let spans = choose|spans: Spans| spans_ok(pages, h, spans);
    assert forall|id: u32| #[trigger] leaves(spans).contains(id) implies id < h.next_page by {
        assert(spans.contains_key(id));
    }
    lemma_below(leaves(spans), h.next_page as int);
    lemma_below(contents(pages, h).dom(), 0x1_0000_0000);
}

/// A new key makes one more entry and widens the bounds to have it.
proof fn lemma_counted(pages: Pages, h: Header, pages2: Pages, h2: Header, key: u32, value: u32)
    requires
        tree_ok(pages, h),
        !contents(pages, h).contains_key(key),
        contents(pages2, h2) == contents(pages, h).insert(key, value),
        h2.entry_cnt == h.entry_cnt,
        h2.min_key == h.min_key,
        h2.max_key == h.max_key,
    ensures
        counts_ok(pages2, counted(h2, key)),
        contents(pages2, counted(h2, key)) == contents(pages2, h2),
        counted(h2, key).entry_cnt == h.entry_cnt + 1,
{
    lemma_counters_bounded(pages, h);
    let h3 = counted(h2, key);
    lemma_contents_root(pages2, h2, h3);
    let before = contents(pages, h);
    let after = contents(pages2, h3);
    assert(after.dom() =~= before.dom().insert(key));
    assert forall|k: u32| #[trigger] after.contains_key(k) implies h3.min_key <= k <= h3.max_key by {
        if k != key {
            assert(before.contains_key(k));
            assert(before.dom().contains(k));
            if h.entry_cnt == 0 {
                assert(before.dom().len() == 0);
                assert(before.dom() =~= Set::empty());
            }
        }
    }
}

/// The map after one leaf gave other answers.
proof fn lemma_contents_changed(
    pages: Pages,
    h: Header,
    pages2: Pages,
    h2: Header,
    key: u32,
    value: Option<u32>,
)
    requires
        forall|k: u32| #[trigger]
            get(pages2, h2, k) == (if k == key {
                value
            } else {
                get(pages, h, k)
            }),
    ensures
        contents(pages2, h2) == (match value {
            Some(v) => contents(pages, h).insert(key, v),
            None => contents(pages, h).remove(key),
        }),
        contents(pages, h).contains_key(key) <==> get(pages, h, key) is Some,
{
    assert(contents(pages2, h2) =~= (match value {
        Some(v) => contents(pages, h).insert(key, v),
        None => contents(pages, h).remove(key),
    }));
}

/// The leaf that a descent for `key` ends in.
proof fn lemma_descent(pages: Pages, h: Header, spans: Spans, key: u32)
    requires
        spans_ok(pages, h, spans),
    ensures
        ({
            let leaf = leaf_for(pages, h.root, depth_of(h), key);
            let path = path_for(pages, h.root, depth_of(h), key);
            &&& spans.contains_key(leaf)
            &&& spans[leaf].level == 0
            &&& spans[leaf].has(key as int)
            &&& node_ok(pages, spans, leaf)
            &&& path_ok(pages, h, spans, path, leaf)
            &&& path.len() == h.height - 1
        }),
{
    lemma_leaf_for(pages, h, spans, h.root, depth_of(h), key);
    let leaf = leaf_for(pages, h.root, depth_of(h), key);
    assert(node_ok(pages, spans, leaf));
    lemma_path_for(pages, h, spans, Seq::empty(), h.root, depth_of(h), key);
    assert(Seq::<(u32, usize)>::empty() + path_for(pages, h.root, depth_of(h), key)
        =~= path_for(pages, h.root, depth_of(h), key));
}

/// A new value in the leaf of a key that is there.
proof fn lemma_upsert_update(pages: Pages, h: Header, spans: Spans, key: u32, value: u32)
    requires
        spans_ok(pages, h, spans),
        slot_of(entries_of(pages[leaf_for(pages, h.root, depth_of(h), key)]), key) is Ok,
    ensures
        ({
            let leaf = leaf_for(pages, h.root, depth_of(h), key);
            let pos = slot_of(entries_of(pages[leaf]), key)->Ok_0;
            let pages2 = pages.insert(leaf, with_value(pages[leaf], pos, value));
            &&& spans_ok(pages2, h, spans)
            &&& contents(pages2, h) == contents(pages, h).insert(key, value)
            &&& contents(pages, h).contains_key(key)
        }),
{
    lemma_descent(pages, h, spans, key);
    let leaf = leaf_for(pages, h.root, depth_of(h), key);
    let p = pages[leaf];
    let e = entries_of(p);
    let pos = rank(e, key);
    lemma_entries_len(p);
    lemma_rank_parts(e, key);
    lemma_with_value(p, pos, value);
    lemma_leaf_get_updated(e, key, value);
    let q = with_value(p, pos, value);
    assert forall|i: int| 0 <= i < entries_of(q).len() implies spans[leaf].has(
        #[trigger] entries_of(q)[i].0 as int,
    ) by {
        assert(spans[leaf].has(e[i].0 as int));
    }
    lemma_replace_leaf(pages, h, spans, leaf, q);
    assert forall|k: u32| #[trigger]
        get(pages.insert(leaf, q), h, k) == (if k == key {
            Some(value)
        } else {
            get(pages, h, k)
        }) by {
        assert(get(pages, h, k) == get(pages, h, k));
    }
    assert(get(pages, h, key) is Some);
    lemma_contents_changed(pages, h, pages.insert(leaf, q), h, key, Some(value));
}

/// A new entry in a leaf that has room.
proof fn lemma_upsert_insert(pages: Pages, h: Header, spans: Spans, key: u32, value: u32)
    requires
        spans_ok(pages, h, spans),
        slot_of(entries_of(pages[leaf_for(pages, h.root, depth_of(h), key)]), key) is Err,
        count_of(pages[leaf_for(pages, h.root, depth_of(h), key)]) < MAX_ENTRIES,
    ensures
        ({
            let leaf = leaf_for(pages, h.root, depth_of(h), key);
            let pos = slot_of(entries_of(pages[leaf]), key)->Err_0;
            let pages2 = pages.insert(leaf, with_inserted(pages[leaf], pos, key, value));
            &&& spans_ok(pages2, h, spans)
            &&& contents(pages2, h) == contents(pages, h).insert(key, value)
            &&& !contents(pages, h).contains_key(key)
        }),
{
    lemma_descent(pages, h, spans, key);
    let leaf = leaf_for(pages, h.root, depth_of(h), key);
    let p = pages[leaf];
    let e = entries_of(p);
    let pos = rank(e, key);
    lemma_entries_len(p);
    lemma_rank_parts(e, key);
    lemma_with_inserted(p, pos, key, value);
    lemma_leaf_get_inserted(e, key, value);
    let q = with_inserted(p, pos, key, value);
    let d = entries_of(q);
    assert forall|i: int| 0 <= i < d.len() implies spans[leaf].has(#[trigger] d[i].0 as int) by {
        if i < pos {
            assert(d[i] == e[i]);
            assert(spans[leaf].has(e[i].0 as int));
        } else if i > pos {
            assert(d[i] == e[i - 1]);
            assert(spans[leaf].has(e[i - 1].0 as int));
        }
    }
    lemma_replace_leaf(pages, h, spans, leaf, q);
    assert forall|k: u32| #[trigger]
        get(pages.insert(leaf, q), h, k) == (if k == key {
            Some(value)
        } else {
            get(pages, h, k)
        }) by {
        assert(get(pages, h, k) == get(pages, h, k));
    }
    assert(get(pages, h, key) is None);
    lemma_contents_changed(pages, h, pages.insert(leaf, q), h, key, Some(value));
}

/// What the leaves hold after one of them was split around a new entry.
proof fn lemma_held_split(
    pages: Pages,
    spans: Spans,
    leaf: u32,
    right: u32,
    m: Seq<(u32, u32)>,
    pos: int,
)
    requires
        node_ok(pages, spans, leaf),
        overfull(spans, leaf, m),
        !spans.contains_key(right),
        0 <= pos < m.len(),
        m.remove(pos) == entries_of(pages[leaf]),
    ensures
        ({
            let pages2 = leaf_halves(pages, leaf, right, m);
            let spans2 = split_spans(spans, leaf, right, m[m.len() as int / 2].0 as int);
            forall|k: u32, v: u32| #[trigger]
                held(pages2, spans2, k, v) <==> (m[pos] == (k, v) || held(pages, spans, k, v))
        }),
{
    let mid = m.len() as int / 2;
    let e = entries_of(pages[leaf]);
    let pages2 = leaf_halves(pages, leaf, right, m);
    let spans2 = split_spans(spans, leaf, right, m[mid].0 as int);
    lemma_leaf_halves(pages, spans, leaf, right, m);
    let a = m.take(mid);
    let b = m.skip(mid);
    assert forall|k: u32, v: u32| #[trigger]
        held(pages2, spans2, k, v) <==> (m[pos] == (k, v) || held(pages, spans, k, v)) by {
        if held(pages2, spans2, k, v) {
            let (id, i) = choose|id: u32, i: int| #[trigger] held_at(pages2, spans2, id, i, k, v);
            if id == leaf || id == right {
                let j = if id == leaf {
                    i
                } else {
                    mid + i
                };
                assert(m[j] == (k, v));
                if j < pos {
                    assert(e[j] == m[j]);
                    assert(held_at(pages, spans, leaf, j, k, v));
                } else if j > pos {
                    assert(e[j - 1] == m[j]);
                    assert(held_at(pages, spans, leaf, j - 1, k, v));
                }
            } else {
                assert(held_at(pages, spans, id, i, k, v));
            }
        }
        if held(pages, spans, k, v) {
            let (id, i) = choose|id: u32, i: int| #[trigger] held_at(pages, spans, id, i, k, v);
            if id == leaf {
                let j = if i < pos {
                    i
                } else {
                    i + 1
                };
                assert(m[j] == e[i]);
                if j < mid {
                    assert(a[j] == m[j]);
                    assert(held_at(pages2, spans2, leaf, j, k, v));
                } else {
                    assert(b[j - mid] == m[j]);
                    assert(held_at(pages2, spans2, right, j - mid, k, v));
                }
            } else {
                assert(held_at(pages2, spans2, id, i, k, v));
            }
        }
        if m[pos] == (k, v) {
            if pos < mid {
                assert(a[pos] == m[pos]);
                assert(held_at(pages2, spans2, leaf, pos, k, v));
            } else {
                assert(b[pos - mid] == m[pos]);
                assert(held_at(pages2, spans2, right, pos - mid, k, v));
            }
        }
    }
}

/// The answers of a tree whose leaves hold one entry more than those of another.
proof fn lemma_get_added(
    pages: Pages,
    h: Header,
    spans: Spans,
    pages2: Pages,
    h2: Header,
    spans2: Spans,
    key: u32,
    value: u32,
)
    requires
        spans_ok(pages, h, spans),
        spans_ok(pages2, h2, spans2),
        get(pages, h, key) is None,
        forall|k: u32, v: u32| #[trigger]
            held(pages2, spans2, k, v) <==> ((key, value) == (k, v) || held(pages, spans, k, v)),
    ensures
        forall|k: u32| #[trigger]
            get(pages2, h2, k) == (if k == key {
                Some(value)
            } else {
                get(pages, h, k)
            }),
{
    assert forall|k: u32| #[trigger]
        get(pages2, h2, k) == (if k == key {
            Some(value)
        } else {
            get(pages, h, k)
        }) by {
        lemma_get_held(pages, h, spans, k);
        lemma_get_held(pages2, h2, spans2, k);
        if k == key {
            assert(held(pages2, spans2, key, value));
        } else {
            if get(pages, h, k) is Some {
                let v = get(pages, h, k)->0;
                assert(held(pages, spans, k, v));
                assert(held(pages2, spans2, k, v));
            }
            if get(pages2, h2, k) is Some {
                let v = get(pages2, h2, k)->0;
                assert(held(pages2, spans2, k, v));
                assert(held(pages, spans, k, v));
            }
        }
    }
}

/// The entries of a full leaf and a new one among them.
proof fn lemma_overfull(
    pages: Pages,
    h: Header,
    spans: Spans,
    leaf: u32,
    key: u32,
    value: u32,
)
    requires
        spans.contains_key(leaf),
        spans[leaf].level == 0,
        spans[leaf].has(key as int),
        node_ok(pages, spans, leaf),
        slot_of(entries_of(pages[leaf]), key) is Err,
        count_of(pages[leaf]) == MAX_ENTRIES,
    ensures
        ({
            let e = entries_of(pages[leaf]);
            let pos = slot_of(e, key)->Err_0;
            let m = e.insert(pos, (key, value));
            &&& pos == rank(e, key)
            &&& 0 <= pos < m.len()
            &&& m[pos] == (key, value)
            &&& m.remove(pos) == e
            &&& overfull(spans, leaf, m)
            &&& leaf_get(e, key) is None
        }),
{
    let e = entries_of(pages[leaf]);
    let pos = rank(e, key);
    lemma_entries_len(pages[leaf]);
    lemma_rank_parts(e, key);
    lemma_leaf_get_inserted(e, key, value);
    let m = e.insert(pos, (key, value));
    assert forall|i: int| 0 <= i < m.len() implies spans[leaf].has((#[trigger] m[i]).0 as int) by {
        if i < pos {
            assert(m[i] == e[i]);
            assert(spans[leaf].has(e[i].0 as int));
        } else if i > pos {
            assert(m[i] == e[i - 1]);
            assert(spans[leaf].has(e[i - 1].0 as int));
        }
    }
    assert(m.remove(pos) =~= e);
}

/// A new entry in a full leaf, which splits.
proof fn lemma_upsert_split(pages: Pages, h: Header, spans: Spans, key: u32, value: u32) -> (spans2:
    Spans)
    requires
        spans_ok(pages, h, spans),
        h.height <= 255,
        h.next_page + h.height + 1 <= u32::MAX,
        h.leaf_cnt < u32::MAX,
        slot_of(entries_of(pages[leaf_for(pages, h.root, depth_of(h), key)]), key) is Err,
        count_of(pages[leaf_for(pages, h.root, depth_of(h), key)]) == MAX_ENTRIES,
    ensures
        ({
            let leaf = leaf_for(pages, h.root, depth_of(h), key);
            let path = path_for(pages, h.root, depth_of(h), key);
            let pos = slot_of(entries_of(pages[leaf]), key)->Err_0;
            let grown = split_leaf(pages, h, leaf, path, pos, key, value);
            let (pages2, h2) = grown->0;
            &&& grown is Some
            &&& spans_ok(pages2, h2, spans2)
            &&& contents(pages2, h2) == contents(pages, h).insert(key, value)
            &&& !contents(pages, h).contains_key(key)
            &&& h2 == Header {
                root: h2.root,
                height: h2.height,
                next_page: h2.next_page,
                leaf_cnt: (h.leaf_cnt + 1) as u32,
                ..h
            }
            &&& h.height <= h2.height <= h.height + 1
            &&& h.next_page < h2.next_page <= h.next_page + h.height + 1
        }),
{
    lemma_descent(pages, h, spans, key);
    let leaf = leaf_for(pages, h.root, depth_of(h), key);
    let path = path_for(pages, h.root, depth_of(h), key);
    let e = entries_of(pages[leaf]);
    let pos = rank(e, key);
    let right = h.next_page;
    lemma_overfull(pages, h, spans, leaf, key, value);
    let m = e.insert(pos, (key, value));
    let mid = m.len() as int / 2;
    lemma_split_leaf(pages, h, spans, path, leaf, m);
    let pages1 = leaf_halves(pages, leaf, right, m);
    let spans1 = split_spans(spans, leaf, right, m[mid].0 as int);
    let h1 = Header {
        next_page: (h.next_page + 1) as u32,
        leaf_cnt: (h.leaf_cnt + 1) as u32,
        ..h
    };
    let spans2 = lemma_grow(pages1, h1, spans1, path, leaf, right, m[0].0, m[mid].0);
    let (pages2, h2) = split_leaf(pages, h, leaf, path, pos, key, value)->0;
    assert(!spans.contains_key(right));
    lemma_held_split(pages, spans, leaf, right, m, pos);
    lemma_same_leaves_held(pages1, spans1, pages2, spans2);
    assert(m[pos] == (key, value));
    assert(get(pages, h, key) is None);
    lemma_get_added(pages, h, spans, pages2, h2, spans2, key, value);
    lemma_contents_changed(pages, h, pages2, h2, key, Some(value));
    spans2
}

/// A lookup finds what the map of the index has, and nothing else.
pub proof fn law_lookup(pages: Pages, h: Header, key: u32)
    ensures
        get(pages, h, key) == (if contents(pages, h).contains_key(key) {
            Some(contents(pages, h)[key])
        } else {
            None
        }),
{
}

/// What an upsert should come to.
pub open spec fn upsert_done(
    pages: Pages,
    h: Header,
    key: u32,
    value: u32,
    outcome: Option<(Pages, Header, bool)>,
) -> bool {
    let (pages2, h2, fresh) = outcome->0;
    &&& outcome is Some
    &&& tree_ok(pages2, h2)
    &&& contents(pages2, h2) == contents(pages, h).insert(key, value)
    &&& fresh == !contents(pages, h).contains_key(key)
    &&& !fresh ==> h2 == opened(h)
    &&& fresh ==> h2.entry_cnt == h.entry_cnt + 1
    &&& h.height <= h2.height <= h.height + 1
    &&& h.next_page <= h2.next_page <= h.next_page + h.height + 1
    &&& h2.source_len == h.source_len && h2.source_frame_cnt == h.source_frame_cnt
    &&& !h2.clean
}

/// An index stays one when it is opened for writing.
proof fn lemma_opened(pages: Pages, h: Header, spans: Spans)
    requires
        tree_ok(pages, h),
        spans_ok(pages, h, spans),
    ensures
        spans_ok(pages, opened(h), spans),
        tree_ok(pages, opened(h)),
        contents(pages, opened(h)) == contents(pages, h),
        depth_of(opened(h)) == depth_of(h),
        h.height <= 255,
        h.next_page + h.height + 1 <= u32::MAX,
        h.leaf_cnt < u32::MAX,
        h.entry_cnt < u64::MAX,
{
    let o = opened(h);
    assert(spans_ok(pages, o, spans));
    lemma_contents_root(pages, h, o);
    assert(tree_ok(pages, o));
    law_height(pages, h);
    law_page_cnt(pages, h);
    lemma_counters_bounded(pages, h);
}

/// An upsert of a key that is there.
proof fn lemma_upsert_repoints(pages: Pages, h: Header, spans: Spans, key: u32, value: u32)
    requires
        tree_ok(pages, h),
        spans_ok(pages, h, spans),
        slot_of(entries_of(pages[leaf_for(pages, h.root, depth_of(h), key)]), key) is Ok,
    ensures
        upsert_done(pages, h, key, value, upserted(pages, h, key, value)),
{
    let o = opened(h);
    lemma_opened(pages, h, spans);
    lemma_upsert_update(pages, o, spans, key, value);
    let (pages2, h2, fresh) = upserted(pages, h, key, value)->0;
    assert(contents(pages2, h2).dom() =~= contents(pages, h).dom());
    assert(spans_ok(pages2, h2, spans));
}

/// An upsert of a new key, whose leaf has room.
proof fn lemma_upsert_inserts(pages: Pages, h: Header, spans: Spans, key: u32, value: u32)
    requires
        tree_ok(pages, h),
        spans_ok(pages, h, spans),
        slot_of(entries_of(pages[leaf_for(pages, h.root, depth_of(h), key)]), key) is Err,
        count_of(pages[leaf_for(pages, h.root, depth_of(h), key)]) < MAX_ENTRIES,
    ensures
        upsert_done(pages, h, key, value, upserted(pages, h, key, value)),
{
    let o = opened(h);
    lemma_opened(pages, h, spans);
    let leaf = leaf_for(pages, h.root, depth_of(h), key);
    let pos = slot_of(entries_of(pages[leaf]), key)->Err_0;
    lemma_upsert_insert(pages, o, spans, key, value);
    let grown = pages.insert(leaf, with_inserted(pages[leaf], pos, key, value));
    lemma_counted(pages, o, grown, o, key, value);
    let (pages2, h2, fresh) = upserted(pages, h, key, value)->0;
    assert(spans_ok(pages2, h2, spans));
}

/// An upsert of a new key, whose leaf is full.
proof fn lemma_upsert_splits(pages: Pages, h: Header, spans: Spans, key: u32, value: u32)
    requires
        tree_ok(pages, h),
        spans_ok(pages, h, spans),
        slot_of(entries_of(pages[leaf_for(pages, h.root, depth_of(h), key)]), key) is Err,
        count_of(pages[leaf_for(pages, h.root, depth_of(h), key)]) == MAX_ENTRIES,
    ensures
        upsert_done(pages, h, key, value, upserted(pages, h, key, value)),
{
    let o = opened(h);
    lemma_opened(pages, h, spans);
    let leaf = leaf_for(pages, h.root, depth_of(h), key);
    let path = path_for(pages, h.root, depth_of(h), key);
    let pos = slot_of(entries_of(pages[leaf]), key)->Err_0;
    let spans2 = lemma_upsert_split(pages, o, spans, key, value);
    let (pages1, h1) = split_leaf(pages, o, leaf, path, pos, key, value)->0;
    lemma_counted(pages, o, pages1, h1, key, value);
    let (pages2, h2, fresh) = upserted(pages, h, key, value)->0;
    assert(spans_ok(pages2, h2, spans2));
}

/// An upsert keeps the index an index, makes the key stand for the value and leaves every other
/// key alone. It tells whether the key is new, and where it is not, no page is allocated and
/// nothing is counted.
pub proof fn law_upsert(pages: Pages, h: Header, key: u32, value: u32)
    requires
        tree_ok(pages, h),
    ensures
        upsert_done(pages, h, key, value, upserted(pages, h, key, value)),
{
    let spans = choose|spans: Spans| spans_ok(pages, h, spans);
    lemma_descent(pages, h, spans, key);
    let p = pages[leaf_for(pages, h.root, depth_of(h), key)];
    if slot_of(entries_of(p), key) is Ok {
        lemma_upsert_repoints(pages, h, spans, key, value);
    } else if count_of(p) < MAX_ENTRIES {
        lemma_upsert_inserts(pages, h, spans, key, value);
    } else {
        lemma_upsert_splits(pages, h, spans, key, value);
    }
}

/// A removal keeps the index an index, takes the key out and leaves every other key alone. It
/// tells whether the key was there. No page is allocated or given back, and the key bounds stay
/// as they are.
pub proof fn law_remove(pages: Pages, h: Header, key: u32)
    requires
        tree_ok(pages, h),
    ensures
        removed(pages, h, key) is Some,
        ({
            let (pages2, h2, hit) = removed(pages, h, key)->0;
            &&& tree_ok(pages2, h2)
            &&& contents(pages2, h2) == contents(pages, h).remove(key)
            &&& hit == contents(pages, h).contains_key(key)
            &&& h2 == Header {
                entry_cnt: (h.entry_cnt - if hit {
                    1int
                } else {
                    0int
                }) as u64,
                clean: false,
                ..h
            }
        }),
{
    let o = opened(h);
    let spans = choose|spans: Spans| spans_ok(pages, h, spans);
    lemma_opened(pages, h, spans);
    let leaf = leaf_for(pages, h.root, depth_of(h), key);
    lemma_descent(pages, o, spans, key);
    let p = pages[leaf];
    let e = entries_of(p);
    let before = contents(pages, h);
    assert(before.contains_key(key) <==> get(pages, o, key) is Some);
    match slot_of(e, key) {
        Ok(pos) => {
            lemma_entries_len(p);
            lemma_rank_parts(e, key);
            lemma_with_removed(p, pos);
            lemma_leaf_get_removed(e, pos);
            let q = with_removed(p, pos);
            let d = entries_of(q);
            assert forall|i: int| 0 <= i < d.len() implies spans[leaf].has(
                #[trigger] d[i].0 as int,
            ) by {
                assert(spans[leaf].has(e[if i < pos {
                    i
                } else {
                    i + 1
                }].0 as int));
            }
            lemma_replace_leaf(pages, o, spans, leaf, q);
            assert(before.contains_key(key) && before.dom().contains(key));
            if h.entry_cnt == 0 {
                assert(before.dom() =~= Set::empty());
            }
            let (pages2, h2, hit) = removed(pages, h, key)->0;
            lemma_contents_root(pages2, o, h2);
            assert forall|k: u32| #[trigger]
                get(pages2, o, k) == (if k == key {
                    None
                } else {
                    get(pages, o, k)
                }) by {
                assert(get(pages, o, k) == get(pages, o, k));
            }
            lemma_contents_changed(pages, o, pages2, o, key, None);
            assert(contents(pages2, h2).dom() =~= before.dom().remove(key));
            assert(spans_ok(pages2, h2, spans));
        },
        Err(_) => {
            assert(before.remove(key) =~= before);
        },
    }
}

/// The key bounds are keys of the index.
pub open spec fn bounds_exact(pages: Pages, h: Header) -> bool {
    h.entry_cnt > 0 ==> contents(pages, h).contains_key(h.min_key) && contents(
        pages,
        h,
    ).contains_key(h.max_key)
}

/// Key bounds that are exact stay exact under upserts.
pub proof fn law_upsert_bounds(pages: Pages, h: Header, key: u32, value: u32)
    requires
        tree_ok(pages, h),
        bounds_exact(pages, h),
    ensures
        ({
            let (pages2, h2, fresh) = upserted(pages, h, key, value)->0;
            bounds_exact(pages2, h2)
        }),
{
    law_upsert(pages, h, key, value);
    let spans = choose|spans: Spans| spans_ok(pages, h, spans);
    let o = opened(h);
    lemma_opened(pages, h, spans);
    lemma_descent(pages, o, spans, key);
    let leaf = leaf_for(pages, h.root, depth_of(h), key);
    if slot_of(entries_of(pages[leaf]), key) is Err && !(count_of(pages[leaf]) < MAX_ENTRIES) {
        let spans2 = lemma_upsert_split(pages, o, spans, key, value);
    }
}

} // verus!
