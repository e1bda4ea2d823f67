//! What a changed leaf and a split do to the tree: it stays a tree, and its leaves hold what they
//! should.

use super::header::Header;
use super::ops::{
    grow, leaf_halves, path_for, root_page,
};
use super::page::{
    ascending, blank, child_at, child_slot, entries_of, has_key, lemma_blank,
    lemma_child_slot_encloses, lemma_entries_len, lemma_rank_parts, lemma_with_entries,
    lemma_with_inserted, lemma_with_next, level_of, next_of, page_fits, rank, separators_ascend,
    with_entries, with_inserted, MAGIC_LEAF, MAGIC_NODE, MAX_ENTRIES,
};
use super::tree::{
    allotted, child_span, depth_of, get, held, held_at, interior_ok, key_limit, leaf_for, leaf_get,
    least_width, leaves, lemma_leaf_for, lemma_leaf_for_frame, lemma_leaf_found, lemma_leaf_get,
    node_ok, root_forks, root_span, roomy, spans_ok, spread, Pages, Span, Spans,
};
use vstd::prelude::*;

verus! {

// -- laws of one leaf --------------------------------------------------------------------

/// A leaf replaced by one that stays in its span and keeps its sibling: the tree stays a tree.
pub(crate) proof fn lemma_replace_leaf(pages: Pages, h: Header, spans: Spans, leaf: u32, p: Seq<u8>)
    requires
        spans_ok(pages, h, spans),
        spans.contains_key(leaf),
        spans[leaf].level == 0,
        page_fits(p),
        level_of(p) == 0,
        next_of(p) == next_of(pages[leaf]),
        ascending(entries_of(p)),
        forall|i: int|
            0 <= i < entries_of(p).len() ==> spans[leaf].has(#[trigger] entries_of(p)[i].0 as int),
    ensures
        spans_ok(pages.insert(leaf, p), h, spans),
        forall|key: u32| #[trigger]
            get(pages.insert(leaf, p), h, key) == (if spans[leaf].has(key as int) {
                leaf_get(entries_of(p), key)
            } else {
                get(pages, h, key)
            }),
        forall|key: u32|
            spans[leaf].has(key as int) ==> #[trigger] get(pages, h, key) == leaf_get(
                entries_of(pages[leaf]),
                key,
            ),
{
    let after = pages.insert(leaf, p);
    assert forall|id: u32| #[trigger] spans.contains_key(id) implies node_ok(after, spans, id) by {
        assert(node_ok(pages, spans, id));
    }
    assert forall|key: u32| #[trigger]
        get(after, h, key) == (if spans[leaf].has(key as int) {
            leaf_get(entries_of(p), key)
        } else {
            get(pages, h, key)
        }) && (spans[leaf].has(key as int) ==> get(pages, h, key) == leaf_get(
            entries_of(pages[leaf]),
            key,
        )) by {
        lemma_leaf_for(pages, h, spans, h.root, depth_of(h), key);
        lemma_leaf_for_frame(pages, spans, leaf, p, h.root, depth_of(h), key);
        let found = leaf_for(pages, h.root, depth_of(h), key);
        assert(spans.contains_key(found));
        if spans[leaf].has(key as int) {
            assert(found == leaf);
        } else {
            assert(found != leaf);
        }
    }
    assert forall|key: u32| spans[leaf].has(key as int) implies #[trigger] get(pages, h, key)
        == leaf_get(entries_of(pages[leaf]), key) by {
        assert(get(after, h, key) == get(after, h, key));
    }
}

/// Without its entry, a key is not found in a leaf; every other key is found as before.
pub(crate) proof fn lemma_leaf_get_removed(e: Seq<(u32, u32)>, pos: int)
    requires
        ascending(e),
        0 <= pos < e.len(),
    ensures
        ascending(e.remove(pos)),
        forall|key: u32| #[trigger]
            leaf_get(e.remove(pos), key) == (if key == e[pos].0 {
                None
            } else {
                leaf_get(e, key)
            }),
{
    let d = e.remove(pos);
    assert forall|i: int, j: int| 0 <= i < j < d.len() implies d[i].0 < d[j].0 by {
        let a = if i < pos {
            i
        } else {
            i + 1
        };
        let b = if j < pos {
            j
        } else {
            j + 1
        };
        assert(d[i] == e[a] && d[j] == e[b]);
    }
    assert forall|key: u32| #[trigger]
        leaf_get(d, key) == (if key == e[pos].0 {
            None
        } else {
            leaf_get(e, key)
        }) by {
        if leaf_get(d, key) is Some {
            lemma_leaf_found(d, key);
            let k = rank(d, key);
            if k < pos {
                assert(d[k] == e[k] && e[k].0 < e[pos].0);
                lemma_leaf_get(e, k);
            } else {
                assert(d[k] == e[k + 1] && e[pos].0 < e[k + 1].0);
                lemma_leaf_get(e, k + 1);
            }
        }
        if leaf_get(e, key) is Some {
            lemma_leaf_found(e, key);
            let i = rank(e, key);
            if i < pos {
                assert(d[i] == e[i] && e[i].0 < e[pos].0);
                lemma_leaf_get(d, i);
            } else if i > pos {
                assert(d[i - 1] == e[i] && e[pos].0 < e[i].0);
                lemma_leaf_get(d, i - 1);
            }
        }
    }
}

/// With a new entry in its place, its key is found; every other key is found as before.
pub(crate) proof fn lemma_leaf_get_inserted(e: Seq<(u32, u32)>, key: u32, value: u32)
    requires
        ascending(e),
        !has_key(e, key),
    ensures
        ascending(e.insert(rank(e, key), (key, value))),
        leaf_get(e, key) is None,
        forall|k: u32| #[trigger]
            leaf_get(e.insert(rank(e, key), (key, value)), k) == (if k == key {
                Some(value)
            } else {
                leaf_get(e, k)
            }),
{
    lemma_rank_parts(e, key);
    let pos = rank(e, key);
    let d = e.insert(pos, (key, value));
    assert forall|i: int| pos <= i < e.len() implies key < (#[trigger] e[i]).0 by {
        if i > pos {
            assert(e[pos].0 < e[i].0);
        }
    }
    assert forall|i: int, j: int| 0 <= i < j < d.len() implies d[i].0 < d[j].0 by {
        if i < pos {
            assert(d[i] == e[i]);
        } else if i > pos {
            assert(d[i] == e[i - 1]);
        }
        if j < pos {
            assert(d[j] == e[j]);
        } else if j > pos {
            assert(d[j] == e[j - 1]);
        }
    }
    assert(d.remove(pos) =~= e);
    assert(d[pos] == (key, value));
    lemma_leaf_get_removed(d, pos);
    lemma_leaf_get(d, pos);
    assert forall|k: u32| #[trigger]
        leaf_get(d, k) == (if k == key {
            Some(value)
        } else {
            leaf_get(e, k)
        }) by {
        assert(leaf_get(d.remove(pos), k) == leaf_get(e, k));
    }
    assert(leaf_get(d.remove(pos), key) is None);
}

/// With another value in its entry, a key stands for that; every other key as before.
pub(crate) proof fn lemma_leaf_get_updated(e: Seq<(u32, u32)>, key: u32, value: u32)
    requires
        ascending(e),
        has_key(e, key),
    ensures
        ascending(e.update(rank(e, key), (key, value))),
        leaf_get(e, key) is Some,
        forall|k: u32| #[trigger]
            leaf_get(e.update(rank(e, key), (key, value)), k) == (if k == key {
                Some(value)
            } else {
                leaf_get(e, k)
            }),
{
    lemma_rank_parts(e, key);
    let pos = rank(e, key);
    let d = e.update(pos, (key, value));
    assert forall|i: int, j: int| 0 <= i < j < d.len() implies d[i].0 < d[j].0 by {
        assert(e[i].0 < e[j].0);
    }
    lemma_leaf_get(e, pos);
    lemma_leaf_get(d, pos);
    assert(d.remove(pos) =~= e.remove(pos));
    lemma_leaf_get_removed(e, pos);
    lemma_leaf_get_removed(d, pos);
    assert forall|k: u32| #[trigger]
        leaf_get(d, k) == (if k == key {
            Some(value)
        } else {
            leaf_get(e, k)
        }) by {
        assert(leaf_get(d.remove(pos), k) == leaf_get(e.remove(pos), k));
    }
}

// -- laws of a split ---------------------------------------------------------------------

/// `path` leads from the root down to page `end`, one level per step.
pub open spec fn path_ok(pages: Pages, h: Header, spans: Spans, path: Seq<(u32, usize)>, end: u32) -> bool {
    &&& path.len() == 0 ==> end == h.root
    &&& path.len() > 0 ==> path[0].0 == h.root
    &&& path.len() > 0 ==> through(pages, path.last()) == end
    &&& forall|i: int|
        0 <= i < path.len() ==> {
            let (node, slot) = #[trigger] path[i];
            &&& spans.contains_key(node)
            &&& spans[node].level == h.height - 1 - i
            &&& slot < entries_of(pages[node]).len()
        }
    &&& forall|i: int, j: int|
        #![trigger path[i], path[j]]
        0 <= i < path.len() && j == i + 1 && j < path.len() ==> through(pages, path[i])
            == path[j].0
}

/// The child that a slot of a node leads to.
pub open spec fn through(pages: Pages, step: (u32, usize)) -> u32 {
    entries_of(pages[step.0])[step.1 as int].1
}

/// The spans as the parent of a page that was just split still sees them.
pub open spec fn rejoined(spans: Spans, left: u32, child: u32) -> Spans {
    spans.insert(left, Span { hi: spans[child].hi, ..spans[left] })
}

/// Page `left` was split: `child` has the upper part of its span, and no parent knows it yet.
pub open spec fn pending(
    pages: Pages,
    h: Header,
    spans: Spans,
    path: Seq<(u32, usize)>,
    left: u32,
    child: u32,
) -> bool {
    &&& 1 <= h.height <= 255
    &&& spread(h, spans)
    &&& leaves(spans).finite()
    &&& leaves(spans).len() == h.leaf_cnt
    &&& spans.contains_key(left)
    &&& spans.contains_key(child)
    &&& left != child
    &&& spans[left].level == spans[child].level
    &&& spans[left].level == h.height - 1 - path.len()
    &&& spans[left].hi == spans[child].lo
    &&& path_ok(pages, h, spans, path, left)
    &&& roomy(spans)
    &&& allotted(h.next_page as int, spans)
    &&& path.len() > 0 ==> root_forks(pages, h)
    &&& path.len() == 0 ==> spans[left].lo == 0 && spans[child].hi == key_limit()
    &&& path.len() > 0 ==> spans[h.root] == root_span(h) && node_ok(
        pages,
        rejoined(spans, left, child),
        path.last().0,
    )
    &&& forall|id: u32| #[trigger]
        spans.contains_key(id) && !(path.len() > 0 && id == path.last().0) ==> node_ok(
            pages,
            spans,
            id,
        )
}

/// The leaves, and what is in them, are the same.
pub open spec fn same_leaves(pages: Pages, spans: Spans, pages2: Pages, spans2: Spans) -> bool {
    forall|id: u32|
        #![trigger spans.contains_key(id)]
        #![trigger spans2.contains_key(id)]
        {
            &&& (spans.contains_key(id) && spans[id].level == 0) <==> (spans2.contains_key(id)
                && spans2[id].level == 0)
            &&& spans.contains_key(id) && spans[id].level == 0 ==> spans2[id] == spans[id]
                && pages2[id] == pages[id]
        }
}

pub(crate) proof fn lemma_same_leaves_trans(
    pages: Pages,
    spans: Spans,
    pages1: Pages,
    spans1: Spans,
    pages2: Pages,
    spans2: Spans,
)
    requires
        same_leaves(pages, spans, pages1, spans1),
        same_leaves(pages1, spans1, pages2, spans2),
    ensures
        same_leaves(pages, spans, pages2, spans2),
{
    assert forall|id: u32|
        #![trigger spans.contains_key(id)]
        #![trigger spans2.contains_key(id)]
        {
            &&& (spans.contains_key(id) && spans[id].level == 0) <==> (spans2.contains_key(id)
                && spans2[id].level == 0)
            &&& spans.contains_key(id) && spans[id].level == 0 ==> spans2[id] == spans[id]
                && pages2[id] == pages[id]
        } by {
        assert(spans1.contains_key(id) == spans1.contains_key(id));
    }
}

pub(crate) proof fn lemma_same_leaves_held(pages: Pages, spans: Spans, pages2: Pages, spans2: Spans)
    requires
        same_leaves(pages, spans, pages2, spans2),
    ensures
        leaves(spans) == leaves(spans2),
        forall|key: u32, value: u32| #[trigger]
            held(pages2, spans2, key, value) <==> held(pages, spans, key, value),
{
    assert(leaves(spans) =~= leaves(spans2));
    assert forall|key: u32, value: u32| #[trigger]
        held(pages2, spans2, key, value) <==> held(pages, spans, key, value) by {
        if held(pages, spans, key, value) {
            let (id, i) = choose|id: u32, i: int|
                #[trigger] held_at(pages, spans, id, i, key, value);
            assert(spans.contains_key(id));
            assert(held_at(pages2, spans2, id, i, key, value));
        }
        if held(pages2, spans2, key, value) {
            let (id, i) = choose|id: u32, i: int|
                #[trigger] held_at(pages2, spans2, id, i, key, value);
            assert(spans2.contains_key(id));
            assert(held_at(pages, spans, id, i, key, value));
        }
    }
}

/// The separator of a new child entered behind the one that was split: the children's spans
/// are cut as their own are.
pub(crate) proof fn lemma_enter_child(
    e: Seq<(u32, u32)>,
    s: Span,
    spans: Spans,
    slot: int,
    left: u32,
    child: u32,
    separator: u32,
)
    requires
        spans.contains_key(left),
        spans.contains_key(child),
        left != child,
        spans[left].hi == spans[child].lo == separator,
        spans[left].lo < spans[left].hi,
        spans[child].lo < spans[child].hi,
        spans[child].level == spans[left].level == s.level - 1,
        s.lo < s.hi,
        0 <= slot < e.len(),
        e[slot].1 == left,
        separators_ascend(e),
        forall|i: int| 1 <= i < e.len() ==> s.lo < #[trigger] e[i].0 < s.hi,
        forall|i: int|
            0 <= i < e.len() ==> {
                &&& rejoined(spans, left, child).contains_key(#[trigger] e[i].1)
                &&& rejoined(spans, left, child)[e[i].1] == child_span(e, s, i)
            },
    ensures
        ({
            let m = e.insert(slot + 1, (separator, child));
            &&& separators_ascend(m)
            &&& forall|i: int| 1 <= i < m.len() ==> s.lo < #[trigger] m[i].0 < s.hi
            &&& forall|i: int|
                0 <= i < m.len() ==> {
                    &&& spans.contains_key(#[trigger] m[i].1)
                    &&& spans[m[i].1] == child_span(m, s, i)
                }
        }),
{
    let m = e.insert(slot + 1, (separator, child));
    let old = rejoined(spans, left, child);
    assert(old[e[slot].1] == child_span(e, s, slot));
    assert(spans[left].lo == child_span(e, s, slot).lo);
    assert(spans[child].hi == child_span(e, s, slot).hi);
    assert forall|i: int| 0 <= i <= slot implies m[i] == e[i] by {}
    assert forall|i: int| slot + 1 < i < m.len() implies m[i] == e[i - 1] by {}
    assert forall|i: int, j: int| 1 <= i < j < m.len() implies m[i].0 < m[j].0 by {
        if j <= slot {
            assert(e[i].0 < e[j].0);
        } else if j == slot + 1 {
            if i < slot {
                assert(e[i].0 < e[slot].0);
            }
        } else if i <= slot {
            assert(e[i].0 < e[j - 1].0);
        } else if i == slot + 1 {
            if slot + 1 < j - 1 {
                assert(e[slot + 1].0 < e[j - 1].0);
            }
        } else {
            assert(e[i - 1].0 < e[j - 1].0);
        }
    }
    assert forall|i: int| 1 <= i < m.len() implies s.lo < #[trigger] m[i].0 < s.hi by {
        if i <= slot {
            assert(s.lo < e[i].0 < s.hi);
        } else if i > slot + 1 {
            assert(s.lo < e[i - 1].0 < s.hi);
        } else {
            if slot > 0 {
                assert(s.lo < e[slot].0 < s.hi);
            }
            if slot + 1 < e.len() {
                assert(s.lo < e[slot + 1].0 < s.hi);
            }
        }
    }
    assert forall|i: int| 0 <= i < m.len() implies {
        &&& spans.contains_key(#[trigger] m[i].1)
        &&& spans[m[i].1] == child_span(m, s, i)
    } by {
        if i < slot {
            assert(old.contains_key(e[i].1) && old[e[i].1] == child_span(e, s, i));
            if e[i].1 == left {
                // Two children of one page have different lower ends.
                assert(child_span(e, s, i).lo == child_span(e, s, slot).lo);
                if i > 0 {
                    assert(e[i].0 < e[slot].0);
                } else {
                    assert(s.lo < e[slot].0);
                }
            }
            assert(m[i + 1] == if i + 1 <= slot {
                e[i + 1]
            } else {
                (separator, child)
            });
        } else if i == slot {
            assert(m[slot + 1] == (separator, child));
        } else if i == slot + 1 {
            if slot + 1 < e.len() {
                assert(m[slot + 2] == e[slot + 1]);
            }
        } else {
            assert(old.contains_key(e[i - 1].1) && old[e[i - 1].1] == child_span(e, s, i - 1));
            if e[i - 1].1 == left {
                assert(child_span(e, s, i - 1).lo == child_span(e, s, slot).lo);
                if slot > 0 {
                    assert(e[slot].0 < e[i - 1].0);
                } else {
                    assert(s.lo < e[i - 1].0);
                }
            }
            if i + 1 < m.len() {
                assert(m[i + 1] == e[i]);
            }
        }
    }
}

/// Cut in two, the children of an interior page are those of two interior pages.
pub(crate) proof fn lemma_cut_children(m: Seq<(u32, u32)>, s: Span, spans: Spans, mid: int)
    requires
        1 <= mid < m.len(),
        separators_ascend(m),
        forall|i: int| 1 <= i < m.len() ==> s.lo < #[trigger] m[i].0 < s.hi,
        forall|i: int|
            0 <= i < m.len() ==> {
                &&& spans.contains_key(#[trigger] m[i].1)
                &&& spans[m[i].1] == child_span(m, s, i)
            },
    ensures
        ({
            let a = m.take(mid);
            let sa = Span { hi: m[mid].0 as int, ..s };
            &&& separators_ascend(a)
            &&& forall|i: int| 1 <= i < a.len() ==> sa.lo < #[trigger] a[i].0 < sa.hi
            &&& forall|i: int|
                0 <= i < a.len() ==> {
                    &&& spans.contains_key(#[trigger] a[i].1)
                    &&& spans[a[i].1] == child_span(a, sa, i)
                }
        }),
        ({
            let b = m.skip(mid);
            let sb = Span { lo: m[mid].0 as int, ..s };
            &&& separators_ascend(b)
            &&& forall|i: int| 1 <= i < b.len() ==> sb.lo < #[trigger] b[i].0 < sb.hi
            &&& forall|i: int|
                0 <= i < b.len() ==> {
                    &&& spans.contains_key(#[trigger] b[i].1)
                    &&& spans[b[i].1] == child_span(b, sb, i)
                }
        }),
{
    let a = m.take(mid);
    let sa = Span { hi: m[mid].0 as int, ..s };
    assert forall|i: int, j: int| 1 <= i < j < a.len() implies a[i].0 < a[j].0 by {
        assert(m[i].0 < m[j].0);
    }
    assert forall|i: int| 1 <= i < a.len() implies sa.lo < #[trigger] a[i].0 < sa.hi by {
        assert(m[i].0 < m[mid].0);
        assert(s.lo < m[i].0);
    }
    assert forall|i: int| 0 <= i < a.len() implies {
        &&& spans.contains_key(#[trigger] a[i].1)
        &&& spans[a[i].1] == child_span(a, sa, i)
    } by {
        assert(a[i] == m[i]);
        assert(spans[m[i].1] == child_span(m, s, i));
    }
    let b = m.skip(mid);
    let sb = Span { lo: m[mid].0 as int, ..s };
    assert forall|i: int| 0 <= i < b.len() implies b[i] == m[mid + i] by {}
    assert forall|i: int, j: int| 1 <= i < j < b.len() implies b[i].0 < b[j].0 by {
        assert(m[mid + i].0 < m[mid + j].0);
    }
    assert forall|i: int| 1 <= i < b.len() implies sb.lo < #[trigger] b[i].0 < sb.hi by {
        assert(m[mid].0 < m[mid + i].0);
        assert(m[mid + i].0 < s.hi);
    }
    assert forall|i: int| 0 <= i < b.len() implies {
        &&& spans.contains_key(#[trigger] b[i].1)
        &&& spans[b[i].1] == child_span(b, sb, i)
    } by {
        assert(b[i] == m[mid + i]);
        assert(spans[m[mid + i].1] == child_span(m, s, mid + i));
        if i + 1 < b.len() {
            assert(b[i + 1] == m[mid + i + 1]);
        }
    }
}

/// The span of a child lies in that of its parent.
pub(crate) proof fn lemma_child_inside(pages: Pages, spans: Spans, id: u32, i: int)
    requires
        node_ok(pages, spans, id),
        spans[id].level > 0,
        0 <= i < entries_of(pages[id]).len(),
    ensures
        spans[id].lo <= spans[entries_of(pages[id])[i].1].lo,
        spans[entries_of(pages[id])[i].1].hi <= spans[id].hi,
        spans[entries_of(pages[id])[i].1].level == spans[id].level - 1,
{
    let e = entries_of(pages[id]);
    let s = spans[id];
    assert(spans[e[i].1] == child_span(e, s, i));
    if i > 0 {
        assert(s.lo < e[i].0 < s.hi);
    }
    if i + 1 < e.len() {
        assert(s.lo < e[i + 1].0 < s.hi);
    }
}

/// Another page of the tree, left alone by a change of page `node` and of the spans of `node`
/// and `right`: it stays as it should be, unless `node` is its child.
pub(crate) proof fn lemma_bystander(
    pages: Pages,
    spans: Spans,
    pages2: Pages,
    spans2: Spans,
    node: u32,
    right: u32,
    id: u32,
)
    requires
        node_ok(pages, spans, id),
        spans.contains_key(node),
        !spans.contains_key(right),
        pages2.contains_key(id),
        pages2[id] == pages[id],
        spans2[id] == spans[id],
        spans2.contains_key(node),
        spans2[node].level == spans[node].level,
        spans2[node].lo == spans[node].lo,
        forall|k: u32|
            #![trigger spans2[k]]
            #![trigger spans2.contains_key(k)]
            spans.contains_key(k) && k != node ==> spans2.contains_key(k) && spans2[k] == spans[k],
        spans[id].level == 0 || forall|i: int|
            0 <= i < entries_of(pages[id]).len() ==> (#[trigger] entries_of(pages[id])[i]).1 != node,
    ensures
        node_ok(pages2, spans2, id),
{
    let e = entries_of(pages[id]);
    if spans[id].level == 0 {
        if spans[id].hi != key_limit() {
            let n = next_of(pages[id]);
            assert(spans.contains_key(n));
            assert(spans2.contains_key(n));
        }
    } else {
        assert forall|i: int| 0 <= i < e.len() implies {
            &&& spans2.contains_key(#[trigger] e[i].1)
            &&& spans2[e[i].1] == child_span(e, spans2[id], i)
        } by {
            assert(spans.contains_key(e[i].1));
            assert(e[i].1 != node);
            assert(spans2.contains_key(e[i].1));
        }
    }
}

/// The entries of a full parent with the new child among them.
pub open spec fn crowded(pages: Pages, path: Seq<(u32, usize)>, separator: u32, child: u32) -> Seq<
    (u32, u32),
> {
    entries_of(pages[path.last().0]).insert(path.last().1 + 1, (separator, child))
}

/// The pages after a full parent was split around the new child.
pub open spec fn split_pages(
    pages: Pages,
    h: Header,
    path: Seq<(u32, usize)>,
    separator: u32,
    child: u32,
) -> Pages {
    let m = crowded(pages, path, separator, child);
    let mid = m.len() as int / 2;
    let p = pages[path.last().0];
    pages.insert(path.last().0, with_entries(p, m.take(mid))).insert(
        h.next_page,
        with_entries(blank(MAGIC_NODE, level_of(p)), m.skip(mid)),
    )
}

/// The spans after page `node` gave up those from `at` on to page `right`.
pub open spec fn split_spans(spans: Spans, node: u32, right: u32, at: int) -> Spans {
    spans.insert(node, Span { hi: at, ..spans[node] }).insert(
        right,
        Span { lo: at, ..spans[node] },
    )
}

/// The split page gave away a part of its span to a page that is new: pages still share no key.
pub(crate) proof fn lemma_spread_split(h: Header, spans: Spans, node: u32, at: int)
    requires
        spread(h, spans),
        spans.contains_key(node),
        spans[node].lo < at < spans[node].hi,
        h.next_page < u32::MAX,
    ensures
        spread(
            Header { next_page: (h.next_page + 1) as u32, ..h },
            split_spans(spans, node, h.next_page, at),
        ),
        !spans.contains_key(h.next_page),
{
    let right = h.next_page;
    let spans2 = split_spans(spans, node, right, at);
    let s = spans[node];
    assert(!spans.contains_key(right));
    assert forall|a: u32, b: u32|
        #![trigger spans2.contains_key(a), spans2.contains_key(b)]
        spans2.contains_key(a) && spans2.contains_key(b) && a != b && spans2[a].level
            == spans2[b].level implies spans2[a].hi <= spans2[b].lo || spans2[b].hi
        <= spans2[a].lo by {
        let a0 = if a == right {
            node
        } else {
            a
        };
        let b0 = if b == right {
            node
        } else {
            b
        };
        assert(spans.contains_key(a0) && spans.contains_key(b0));
    }
    assert forall|id: u32| #[trigger] spans2.contains_key(id) implies 1 <= id < right + 1 && 0
        <= spans2[id].level < h.height by {
        if id != right {
            assert(spans.contains_key(id));
        }
        assert(spans.contains_key(node));
    }
}

/// Where child `i` of a page with the entries `m` and the span `s` begins, or where the last one
/// ends.
pub open spec fn edge(m: Seq<(u32, u32)>, s: Span, i: int) -> int {
    if i == 0 {
        s.lo
    } else if i < m.len() {
        m[i].0 as int
    } else {
        s.hi
    }
}

/// Children that are not the last of their level have wide spans, so together they have one that
/// is as much wider as there are of them.
pub(crate) proof fn lemma_children_width(m: Seq<(u32, u32)>, s: Span, spans: Spans, a: int, b: int)
    requires
        0 <= a <= b <= m.len(),
        b < m.len() || s.hi < key_limit(),
        roomy(spans),
        forall|i: int|
            a <= i < b ==> {
                &&& spans.contains_key(#[trigger] m[i].1)
                &&& spans[m[i].1] == child_span(m, s, i)
            },
    ensures
        edge(m, s, b) - edge(m, s, a) >= (b - a) * least_width(s.level - 1),
    decreases b - a,
{
    reveal(roomy);
    let w = least_width(s.level - 1);
    if a < b {
        lemma_children_width(m, s, spans, a, b - 1);
        assert(spans[m[b - 1].1] == child_span(m, s, b - 1));
        assert(spans.contains_key(m[b - 1].1));
        assert((b - a) * w == (b - 1 - a) * w + w) by (nonlinear_arith);
    } else {
        assert((b - a) * w == 0) by (nonlinear_arith)
            requires
                b == a,
        ;
    }
}

/// Keys that ascend are at least as far apart as their places.
pub(crate) proof fn lemma_ascending_gap(e: Seq<(u32, u32)>, i: int, j: int)
    requires
        ascending(e),
        0 <= i <= j < e.len(),
    ensures
        e[j].0 - e[i].0 >= j - i,
    decreases j - i,
{
    if i < j {
        lemma_ascending_gap(e, i, j - 1);
        assert(e[j - 1].0 < e[j].0);
    }
}

/// A page cut where both parts are wide leaves all spans wide.
pub(crate) proof fn lemma_roomy_split(spans: Spans, node: u32, right: u32, at: int)
    requires
        roomy(spans),
        spans.contains_key(node),
        at - spans[node].lo >= least_width(spans[node].level),
        spans[node].hi < key_limit() ==> spans[node].hi - at >= least_width(spans[node].level),
    ensures
        roomy(split_spans(spans, node, right, at)),
{
    reveal(roomy);
    let spans2 = split_spans(spans, node, right, at);
    assert forall|id: u32| #[trigger]
        spans2.contains_key(id) && spans2[id].hi < key_limit() implies spans2[id].hi
        - spans2[id].lo >= least_width(spans2[id].level) by {
        if id != node && id != right {
            assert(spans.contains_key(id));
        }
    }
}

/// A page cut in its span leaves all pages allotted, with the new one among them.
pub(crate) proof fn lemma_allotted_split(spans: Spans, node: u32, right: u32, at: int)
    requires
        allotted(right as int, spans),
        spans.contains_key(node),
        spans[node].lo < at < spans[node].hi,
    ensures
        allotted(right + 1, split_spans(spans, node, right, at)),
{
    reveal(allotted);
    let spans2 = split_spans(spans, node, right, at);
    assert forall|id: u32|
        #![trigger spans2.contains_key(id)]
        {
            &&& 1 <= id < right + 1 ==> spans2.contains_key(id)
            &&& spans2.contains_key(id) ==> 0 <= spans2[id].lo && spans2[id].hi <= key_limit()
        } by {
        assert(spans.contains_key(id) == spans.contains_key(id));
    }
}

/// The halves of a split parent are as interior pages should be.
pub(crate) proof fn lemma_halves(
    pages: Pages,
    h: Header,
    spans: Spans,
    path: Seq<(u32, usize)>,
    left: u32,
    child: u32,
    separator: u32,
)
    requires
        pending(pages, h, spans, path, left, child),
        spans[child].lo == separator,
        path.len() > 0,
        entries_of(pages[path.last().0]).len() == MAX_ENTRIES,
    ensures
        ({
            let m = crowded(pages, path, separator, child);
            let mid = m.len() as int / 2;
            let pages2 = split_pages(pages, h, path, separator, child);
            let node = path.last().0;
            let spans2 = split_spans(spans, node, h.next_page, m[mid].0 as int);
            &&& spans[node].lo < m[mid].0 < spans[node].hi
            &&& node_ok(pages2, spans2, node)
            &&& node_ok(pages2, spans2, h.next_page)
            &&& roomy(spans2)
        }),
{
    let (node, slot) = path.last();
    let p = pages[node];
    let e = entries_of(p);
    let s = spans[node];
    let m = crowded(pages, path, separator, child);
    let mid = m.len() as int / 2;
    let right = h.next_page;
    let spans2 = split_spans(spans, node, right, m[mid].0 as int);
    assert(path[path.len() - 1] == (node, slot));
    assert(spans.contains_key(node) && !spans.contains_key(right));
    assert(s.level == spans[left].level + 1);
    assert(rejoined(spans, left, child)[node] == s);
    assert(node_ok(pages, spans, left) && node_ok(pages, spans, child));
    lemma_enter_child(e, s, spans, slot as int, left, child, separator);
    lemma_cut_children(m, s, spans, mid);
    lemma_with_entries(p, m.take(mid));
    lemma_blank(MAGIC_NODE, level_of(p));
    lemma_with_entries(blank(MAGIC_NODE, level_of(p)), m.skip(mid));
    assert(s.lo < m[mid].0 < s.hi);
    assert(mid == 256 && m.len() == 512);
    lemma_children_width(m, s, spans, 0, mid);
    if s.hi < key_limit() {
        lemma_children_width(m, s, spans, mid, m.len() as int);
    }
    lemma_roomy_split(spans, node, right, m[mid].0 as int);
    let a = m.take(mid);
    let sa = spans2[node];
    assert forall|i: int| 0 <= i < a.len() implies {
        &&& spans2.contains_key(#[trigger] a[i].1)
        &&& spans2[a[i].1] == child_span(a, sa, i)
    } by {
        assert(spans.contains_key(a[i].1));
    }
    let b = m.skip(mid);
    let sb = spans2[right];
    assert forall|i: int| 0 <= i < b.len() implies {
        &&& spans2.contains_key(#[trigger] b[i].1)
        &&& spans2[b[i].1] == child_span(b, sb, i)
    } by {
        assert(spans.contains_key(b[i].1));
    }
}

/// The pages beside a split parent and its own parent are as they should be.
pub(crate) proof fn lemma_beside_split(
    pages: Pages,
    h: Header,
    spans: Spans,
    path: Seq<(u32, usize)>,
    left: u32,
    child: u32,
    pages2: Pages,
    at: int,
    id: u32,
)
    requires
        pending(pages, h, spans, path, left, child),
        path.len() > 0,
        spans.contains_key(id),
        id != path.last().0,
        path.len() > 1 ==> id != path[path.len() - 2].0,
        pages2.contains_key(id),
        pages2[id] == pages[id],
    ensures
        node_ok(pages2, split_spans(spans, path.last().0, h.next_page, at), id),
{
    let node = path.last().0;
    let right = h.next_page;
    let spans2 = split_spans(spans, node, right, at);
    assert(path[path.len() - 1] == path.last());
    assert(!spans.contains_key(right));
    assert(node_ok(pages, spans, id));
    assert(node_ok(pages, spans, left));
    let d = entries_of(pages[id]);
    if spans[id].level > 0 {
        assert forall|i: int| 0 <= i < d.len() implies (#[trigger] d[i]).1 != node by {
            if d[i].1 == node {
                lemma_child_inside(pages, spans, id, i);
                if path.len() > 1 {
                    let (pp, ps) = path[path.len() - 2];
                    assert(spans.contains_key(pp));
                    assert(node_ok(pages, spans, pp));
                    assert(entries_of(pages[pp])[ps as int].1 == node);
                    lemma_child_inside(pages, spans, pp, ps as int);
                    assert(spans[node].lo < spans[node].hi);
                }
            }
        }
    }
    lemma_bystander(pages, spans, pages2, spans2, node, right, id);
}

/// The parent of a split parent is as it should be, were it not for the split.
pub(crate) proof fn lemma_above_split(
    pages: Pages,
    h: Header,
    spans: Spans,
    path: Seq<(u32, usize)>,
    left: u32,
    child: u32,
    pages2: Pages,
    at: int,
)
    requires
        pending(pages, h, spans, path, left, child),
        path.len() > 1,
        pages2.contains_key(path[path.len() - 2].0),
        pages2[path[path.len() - 2].0] == pages[path[path.len() - 2].0],
    ensures
        ({
            let node = path.last().0;
            let spans2 = split_spans(spans, node, h.next_page, at);
            node_ok(pages2, rejoined(spans2, node, h.next_page), path[path.len() - 2].0)
        }),
{
    let node = path.last().0;
    let right = h.next_page;
    let spans2 = split_spans(spans, node, right, at);
    let back = rejoined(spans2, node, right);
    let (pp, ps) = path[path.len() - 2];
    assert(path[path.len() - 1] == path.last());
    assert(!spans.contains_key(right));
    assert(spans.contains_key(pp) && pp != node);
    assert(node_ok(pages, spans, pp));
    let d = entries_of(pages[pp]);
    assert(back[node] =~= spans[node]);
    assert forall|i: int| 0 <= i < d.len() implies {
        &&& back.contains_key(#[trigger] d[i].1)
        &&& back[d[i].1] == child_span(d, back[pp], i)
    } by {
        assert(spans.contains_key(d[i].1));
    }
}

/// A full parent split around the new child: the split is now pending one level higher.
pub(crate) proof fn lemma_split_node(
    pages: Pages,
    h: Header,
    spans: Spans,
    path: Seq<(u32, usize)>,
    left: u32,
    child: u32,
    separator: u32,
) -> (spans2: Spans)
    requires
        pending(pages, h, spans, path, left, child),
        spans[child].lo == separator,
        path.len() > 0,
        entries_of(pages[path.last().0]).len() == MAX_ENTRIES,
        h.next_page < u32::MAX,
    ensures
        ({
            let m = crowded(pages, path, separator, child);
            let pages2 = split_pages(pages, h, path, separator, child);
            let h2 = Header { next_page: (h.next_page + 1) as u32, ..h };
            &&& pending(pages2, h2, spans2, path.drop_last(), path.last().0, h.next_page)
            &&& spans2[h.next_page].lo == m[m.len() as int / 2].0
            &&& same_leaves(pages, spans, pages2, spans2)
        }),
{
    let node = path.last().0;
    let s = spans[node];
    let m = crowded(pages, path, separator, child);
    let mid = m.len() as int / 2;
    let at = m[mid].0 as int;
    let right = h.next_page;
    let pages2 = split_pages(pages, h, path, separator, child);
    let h2 = Header { next_page: (h.next_page + 1) as u32, ..h };
    let path2 = path.drop_last();
    let spans2 = split_spans(spans, node, right, at);
    assert(path[path.len() - 1] == path.last());
    assert(spans.contains_key(node));
    assert(s.level == spans[left].level + 1 && spans[left].level >= 0);
    lemma_halves(pages, h, spans, path, left, child, separator);
    lemma_spread_split(h, spans, node, at);
    lemma_allotted_split(spans, node, right, at);
    assert(leaves(spans2) =~= leaves(spans));
    assert(path2.len() > 0 ==> path[path.len() - 2] == path2.last());
    assert forall|id: u32| #[trigger] spans2.contains_key(id) && !(path2.len() > 0 && id
        == path2.last().0) implies node_ok(pages2, spans2, id) by {
        if id != node && id != right {
            assert(spans.contains_key(id));
            assert(node_ok(pages, spans, id));
            lemma_beside_split(pages, h, spans, path, left, child, pages2, at, id);
        }
    }
    if path2.len() > 0 {
        let pp = path2.last().0;
        assert(spans.contains_key(pp) && pp != node && pp != right);
        assert(node_ok(pages, spans, pp));
        lemma_above_split(pages, h, spans, path, left, child, pages2, at);
        assert(path[0].0 == h.root);
        assert(spans.contains_key(h.root) && h.root != node && h.root != right);
    } else {
        assert(path[0].0 == h.root);
    }
    assert(path_ok(pages2, h2, spans2, path2, node)) by {
        assert forall|i: int| 0 <= i < path2.len() implies {
            let (n, sl) = #[trigger] path2[i];
            &&& spans2.contains_key(n)
            &&& spans2[n].level == h2.height - 1 - i
            &&& sl < entries_of(pages2[n]).len()
            &&& through(pages2, path2[i]) == through(pages, path[i])
        } by {
            assert(path2[i] == path[i]);
            assert(path[i].0 != node && path[i].0 != right);
        }
        if path2.len() > 0 {
            assert(path2.last() == path[path2.len() - 1]);
            assert(path[path2.len() as int].0 == node);
        }
    }
    spans2
}

/// A new root over the two halves of the old one makes the tree whole again.
pub(crate) proof fn lemma_raise_root(
    pages: Pages,
    h: Header,
    spans: Spans,
    left: u32,
    child: u32,
    left_separator: u32,
    separator: u32,
) -> (spans2: Spans)
    requires
        pending(pages, h, spans, Seq::empty(), left, child),
        spans[child].lo == separator,
        h.next_page < u32::MAX,
    ensures
        ({
            let (pages2, h2) = grow(pages, h, Seq::empty(), left_separator, separator, child)->0;
            &&& spans_ok(pages2, h2, spans2)
            &&& same_leaves(pages, spans, pages2, spans2)
        }),
{
    let r = h.next_page;
    let p = root_page(h, left_separator, separator, child);
    let pages2 = pages.insert(r, p);
    let h2 = Header {
        root: r,
        height: (h.height + 1) as u32,
        next_page: (h.next_page + 1) as u32,
        ..h
    };
    let spans2 = spans.insert(r, root_span(h2));
    let e = seq![(left_separator, h.root), (separator, child)];
    lemma_blank(MAGIC_NODE, h.height as u8);
    lemma_with_entries(blank(MAGIC_NODE, h.height as u8), e);
    assert(!spans.contains_key(r));
    assert(node_ok(pages, spans, left) && node_ok(pages, spans, child));
    assert(interior_ok(p, spans2, root_span(h2))) by {
        assert(child_span(e, root_span(h2), 0) =~= spans[left]);
        assert(child_span(e, root_span(h2), 1) =~= spans[child]);
        assert forall|i: int| 0 <= i < e.len() implies {
            &&& spans2.contains_key(#[trigger] e[i].1)
            &&& spans2[e[i].1] == child_span(e, root_span(h2), i)
        } by {}
    }
    assert forall|id: u32| #[trigger] spans2.contains_key(id) implies node_ok(
        pages2,
        spans2,
        id,
    ) by {
        if id != r {
            assert(node_ok(pages, spans, id));
            let d = entries_of(pages[id]);
            if spans[id].level > 0 {
                assert forall|i: int| 0 <= i < d.len() implies {
                    &&& spans2.contains_key(#[trigger] d[i].1)
                    &&& spans2[d[i].1] == child_span(d, spans2[id], i)
                } by {
                    assert(spans.contains_key(d[i].1));
                }
            }
        }
    }
    assert(leaves(spans2) =~= leaves(spans));
    assert(allotted(h2.next_page as int, spans2)) by {
        reveal(allotted);
        assert forall|id: u32|
            #![trigger spans2.contains_key(id)]
            {
                &&& 1 <= id < h2.next_page ==> spans2.contains_key(id)
                &&& spans2.contains_key(id) ==> 0 <= spans2[id].lo && spans2[id].hi
                    <= key_limit()
            } by {
            assert(spans.contains_key(id) == spans.contains_key(id));
        }
    }
    assert(roomy(spans2)) by {
        reveal(roomy);
        assert forall|id: u32| #[trigger]
            spans2.contains_key(id) && spans2[id].hi < key_limit() implies spans2[id].hi
            - spans2[id].lo >= least_width(spans2[id].level) by {
            assert(spans.contains_key(id));
        }
    }
    spans2
}

/// A parent with room takes the new child in, which makes the tree whole again.
pub(crate) proof fn lemma_enter_parent(
    pages: Pages,
    h: Header,
    spans: Spans,
    path: Seq<(u32, usize)>,
    left: u32,
    child: u32,
    separator: u32,
)
    requires
        pending(pages, h, spans, path, left, child),
        spans[child].lo == separator,
        path.len() > 0,
        entries_of(pages[path.last().0]).len() < MAX_ENTRIES,
    ensures
        ({
            let (node, slot) = path.last();
            let pages2 = pages.insert(
                node,
                with_inserted(pages[node], slot + 1, separator, child),
            );
            &&& spans_ok(pages2, h, spans)
            &&& same_leaves(pages, spans, pages2, spans)
        }),
{
    let (node, slot) = path.last();
    let p = pages[node];
    let e = entries_of(p);
    assert(path[path.len() - 1] == (node, slot));
    let pages2 = pages.insert(node, with_inserted(p, slot + 1, separator, child));
    let s = spans[node];
    assert(s.level == spans[left].level + 1);
    assert(rejoined(spans, left, child)[node] == s);
    assert(node_ok(pages, spans, left) && node_ok(pages, spans, child));
    lemma_entries_len(p);
    lemma_enter_child(e, s, spans, slot as int, left, child, separator);
    lemma_with_inserted(p, slot + 1, separator, child);
    assert(node_ok(pages2, spans, node));
    assert forall|id: u32| #[trigger] spans.contains_key(id) implies node_ok(
        pages2,
        spans,
        id,
    ) by {
        if id != node {
            assert(node_ok(pages, spans, id));
        }
    }
}

/// Entering the new child into its parents makes the tree whole again and touches no leaf.
pub(crate) proof fn lemma_grow(
    pages: Pages,
    h: Header,
    spans: Spans,
    path: Seq<(u32, usize)>,
    left: u32,
    child: u32,
    left_separator: u32,
    separator: u32,
) -> (spans2: Spans)
    requires
        pending(pages, h, spans, path, left, child),
        spans[child].lo == separator,
        h.next_page + path.len() + 1 <= u32::MAX,
    ensures
        ({
            let (pages2, h2) = grow(pages, h, path, left_separator, separator, child)->0;
            &&& grow(pages, h, path, left_separator, separator, child) is Some
            &&& spans_ok(pages2, h2, spans2)
            &&& same_leaves(pages, spans, pages2, spans2)
            &&& h2 == Header { root: h2.root, height: h2.height, next_page: h2.next_page, ..h }
            &&& h.height <= h2.height <= h.height + 1
            &&& h.next_page <= h2.next_page <= h.next_page + path.len() + 1
        }),
    decreases path.len(),
{
    if path.len() == 0 {
        assert(path =~= Seq::empty());
        lemma_raise_root(pages, h, spans, left, child, left_separator, separator)
    } else {
        let (node, slot) = path.last();
        let p = pages[node];
        let e = entries_of(p);
        lemma_entries_len(p);
        if e.len() < MAX_ENTRIES {
            lemma_enter_parent(pages, h, spans, path, left, child, separator);
            spans
        } else {
            assert(node_ok(pages, rejoined(spans, left, child), node));
            let m = e.insert(slot + 1, (separator, child));
            let mid = m.len() as int / 2;
            let right = h.next_page;
            let mid_spans = lemma_split_node(pages, h, spans, path, left, child, separator);
            let mid_pages = pages.insert(node, with_entries(p, m.take(mid))).insert(
                right,
                with_entries(blank(MAGIC_NODE, level_of(p)), m.skip(mid)),
            );
            let mid_h = Header { next_page: (h.next_page + 1) as u32, ..h };
            let spans2 = lemma_grow(
                mid_pages,
                mid_h,
                mid_spans,
                path.drop_last(),
                node,
                right,
                m[0].0,
                m[mid].0,
            );
            let (pages2, h2) = grow(pages, h, path, left_separator, separator, child)->0;
            lemma_same_leaves_trans(pages, spans, mid_pages, mid_spans, pages2, spans2);
            spans2
        }
    }
}

/// A descent leaves a path that leads to the leaf it ends in.
pub(crate) proof fn lemma_path_for(
    pages: Pages,
    h: Header,
    spans: Spans,
    path: Seq<(u32, usize)>,
    id: u32,
    left: nat,
    key: u32,
)
    requires
        forall|id: u32| #[trigger] spans.contains_key(id) ==> node_ok(pages, spans, id),
        path_ok(pages, h, spans, path, id),
        spans.contains_key(id),
        spans[id].level == left,
        left == h.height - 1 - path.len(),
        spans[id].has(key as int),
    ensures
        path_ok(
            pages,
            h,
            spans,
            path + path_for(pages, id, left, key),
            leaf_for(pages, id, left, key),
        ),
        path_for(pages, id, left, key).len() == left,
    decreases left,
{
    if left == 0 {
        assert(path + path_for(pages, id, left, key) =~= path);
    } else {
        assert(node_ok(pages, spans, id));
        let e = entries_of(pages[id]);
        let slot = child_slot(e, key);
        lemma_entries_len(pages[id]);
        lemma_child_slot_encloses(e, key);
        let next = e[slot].1;
        assert(next == child_at(pages[id], key));
        assert(spans.contains_key(next) && spans[next] == child_span(e, spans[id], slot));
        let longer = path.push((id, slot as usize));
        assert(path_ok(pages, h, spans, longer, next)) by {
            assert forall|i: int| 0 <= i < longer.len() implies {
                let (node, slot) = #[trigger] longer[i];
                &&& spans.contains_key(node)
                &&& spans[node].level == h.height - 1 - i
                &&& slot < entries_of(pages[node]).len()
            } by {
                if i < path.len() {
                    assert(longer[i] == path[i]);
                }
            }
            assert forall|i: int, j: int|
                #![trigger longer[i], longer[j]]
                0 <= i < longer.len() && j == i + 1 && j < longer.len() implies through(
                pages,
                longer[i],
            ) == longer[j].0 by {
                assert(longer[i] == path[i]);
                if j < path.len() {
                    assert(longer[j] == path[j]);
                } else {
                    assert(path[i] == path.last());
                }
            }
        }
        lemma_path_for(pages, h, spans, longer, next, (left - 1) as nat, key);
        assert(longer + path_for(pages, next, (left - 1) as nat, key) =~= path + path_for(
            pages,
            id,
            left,
            key,
        ));
    }
}

/// What is asked of a split leaf: `m` are its entries and the new one, all in its span.
pub open spec fn overfull(spans: Spans, leaf: u32, m: Seq<(u32, u32)>) -> bool {
    &&& spans.contains_key(leaf)
    &&& spans[leaf].level == 0
    &&& ascending(m)
    &&& m.len() == MAX_ENTRIES + 1
    &&& forall|i: int| 0 <= i < m.len() ==> spans[leaf].has((#[trigger] m[i]).0 as int)
}

/// The halves of a split leaf are as leaves should be.
pub(crate) proof fn lemma_leaf_halves(
    pages: Pages,
    spans: Spans,
    leaf: u32,
    right: u32,
    m: Seq<(u32, u32)>,
)
    requires
        node_ok(pages, spans, leaf),
        overfull(spans, leaf, m),
        !spans.contains_key(right),
    ensures
        ({
            let mid = m.len() as int / 2;
            let pages2 = leaf_halves(pages, leaf, right, m);
            let spans2 = split_spans(spans, leaf, right, m[mid].0 as int);
            &&& spans[leaf].lo < m[mid].0 < spans[leaf].hi
            &&& m[mid].0 - spans[leaf].lo >= 256
            &&& spans[leaf].hi - m[mid].0 >= 256
            &&& node_ok(pages2, spans2, leaf)
            &&& node_ok(pages2, spans2, right)
            &&& entries_of(pages2[leaf]) == m.take(mid)
            &&& entries_of(pages2[right]) == m.skip(mid)
        }),
{
    let mid = m.len() as int / 2;
    let p = pages[leaf];
    let s = spans[leaf];
    let spans2 = split_spans(spans, leaf, right, m[mid].0 as int);
    let a = m.take(mid);
    let b = m.skip(mid);
    lemma_with_entries(p, a);
    lemma_with_next(with_entries(p, a), right);
    lemma_blank(MAGIC_LEAF, 0);
    lemma_with_entries(blank(MAGIC_LEAF, 0), b);
    lemma_with_next(with_entries(blank(MAGIC_LEAF, 0), b), next_of(p));
    assert(s.has(m[0].0 as int) && s.has(m[mid].0 as int) && m[0].0 < m[mid].0);
    assert(s.has(m[511].0 as int));
    lemma_ascending_gap(m, 0, mid);
    lemma_ascending_gap(m, mid, 511);
    assert forall|i: int| 0 <= i < a.len() implies a[i] == m[i] by {}
    assert forall|i: int| 0 <= i < b.len() implies b[i] == m[mid + i] by {}
    assert forall|i: int, j: int| 0 <= i < j < a.len() implies a[i].0 < a[j].0 by {
        assert(m[i].0 < m[j].0);
    }
    assert forall|i: int| 0 <= i < a.len() implies spans2[leaf].has(#[trigger] a[i].0 as int) by {
        assert(s.has(m[i].0 as int) && m[i].0 < m[mid].0);
    }
    assert forall|i: int, j: int| 0 <= i < j < b.len() implies b[i].0 < b[j].0 by {
        assert(m[mid + i].0 < m[mid + j].0);
    }
    assert forall|i: int| 0 <= i < b.len() implies spans2[right].has(#[trigger] b[i].0 as int) by {
        assert(s.has(m[mid + i].0 as int));
        if i > 0 {
            assert(m[mid].0 < m[mid + i].0);
        }
    }
    if s.hi != key_limit() {
        assert(spans.contains_key(next_of(p)));
    }
}

/// The pages beside a split leaf and its parent are as they should be.
pub(crate) proof fn lemma_beside_leaf(
    pages: Pages,
    h: Header,
    spans: Spans,
    path: Seq<(u32, usize)>,
    leaf: u32,
    pages2: Pages,
    at: int,
    id: u32,
)
    requires
        spans_ok(pages, h, spans),
        spans.contains_key(leaf),
        spans[leaf].level == 0,
        path_ok(pages, h, spans, path, leaf),
        path.len() == h.height - 1,
        spans.contains_key(id),
        id != leaf,
        path.len() > 0 ==> id != path.last().0,
        pages2.contains_key(id),
        pages2[id] == pages[id],
    ensures
        node_ok(pages2, split_spans(spans, leaf, h.next_page, at), id),
{
    let right = h.next_page;
    let spans2 = split_spans(spans, leaf, right, at);
    assert(!spans.contains_key(right));
    assert(node_ok(pages, spans, id));
    assert(node_ok(pages, spans, leaf));
    let d = entries_of(pages[id]);
    if spans[id].level > 0 {
        assert forall|i: int| 0 <= i < d.len() implies (#[trigger] d[i]).1 != leaf by {
            if d[i].1 == leaf {
                lemma_child_inside(pages, spans, id, i);
                if path.len() > 0 {
                    let (pp, ps) = path[path.len() - 1];
                    assert(spans.contains_key(pp));
                    assert(node_ok(pages, spans, pp));
                    assert(entries_of(pages[pp])[ps as int].1 == leaf);
                    lemma_child_inside(pages, spans, pp, ps as int);
                    assert(spans[leaf].lo < spans[leaf].hi);
                }
            }
        }
    }
    lemma_bystander(pages, spans, pages2, spans2, leaf, right, id);
}

/// The parent of a split leaf is as it should be, were it not for the split.
pub(crate) proof fn lemma_above_leaf(
    pages: Pages,
    h: Header,
    spans: Spans,
    path: Seq<(u32, usize)>,
    leaf: u32,
    pages2: Pages,
    at: int,
)
    requires
        spans_ok(pages, h, spans),
        spans.contains_key(leaf),
        spans[leaf].level == 0,
        path_ok(pages, h, spans, path, leaf),
        path.len() == h.height - 1,
        path.len() > 0,
        pages2.contains_key(path.last().0),
        pages2[path.last().0] == pages[path.last().0],
    ensures
        ({
            let spans2 = split_spans(spans, leaf, h.next_page, at);
            node_ok(pages2, rejoined(spans2, leaf, h.next_page), path.last().0)
        }),
{
    let right = h.next_page;
    let spans2 = split_spans(spans, leaf, right, at);
    let back = rejoined(spans2, leaf, right);
    let (pp, ps) = path[path.len() - 1];
    assert(!spans.contains_key(right));
    assert(spans.contains_key(pp) && pp != leaf);
    assert(node_ok(pages, spans, pp));
    let d = entries_of(pages[pp]);
    assert(back[leaf] =~= spans[leaf]);
    assert forall|i: int| 0 <= i < d.len() implies {
        &&& back.contains_key(#[trigger] d[i].1)
        &&& back[d[i].1] == child_span(d, back[pp], i)
    } by {
        assert(spans.contains_key(d[i].1));
    }
}

/// A leaf was split around a new entry: the split is pending.
pub(crate) proof fn lemma_split_leaf(
    pages: Pages,
    h: Header,
    spans: Spans,
    path: Seq<(u32, usize)>,
    leaf: u32,
    m: Seq<(u32, u32)>,
)
    requires
        spans_ok(pages, h, spans),
        h.height <= 255,
        overfull(spans, leaf, m),
        path_ok(pages, h, spans, path, leaf),
        path.len() == h.height - 1,
        h.next_page < u32::MAX,
        h.leaf_cnt < u32::MAX,
    ensures
        ({
            let right = h.next_page;
            let h2 = Header {
                next_page: (h.next_page + 1) as u32,
                leaf_cnt: (h.leaf_cnt + 1) as u32,
                ..h
            };
            pending(
                leaf_halves(pages, leaf, right, m),
                h2,
                split_spans(spans, leaf, right, m[m.len() as int / 2].0 as int),
                path,
                leaf,
                right,
            )
        }),
{
    let right = h.next_page;
    let at = m[m.len() as int / 2].0 as int;
    let spans2 = split_spans(spans, leaf, right, at);
    let pages2 = leaf_halves(pages, leaf, right, m);
    let h2 = Header {
        next_page: (h.next_page + 1) as u32,
        leaf_cnt: (h.leaf_cnt + 1) as u32,
        ..h
    };
    assert(node_ok(pages, spans, leaf));
    assert(!spans.contains_key(right));
    lemma_leaf_halves(pages, spans, leaf, right, m);
    lemma_spread_split(h, spans, leaf, at);
    lemma_allotted_split(spans, leaf, right, at);
    lemma_roomy_split(spans, leaf, right, at);
    assert(spread(h2, spans2));
    assert(leaves(spans2) =~= leaves(spans).insert(right));
    assert forall|id: u32| #[trigger] spans2.contains_key(id) && !(path.len() > 0 && id
        == path.last().0) implies node_ok(pages2, spans2, id) by {
        if id != leaf && id != right {
            assert(node_ok(pages, spans, id));
            lemma_beside_leaf(pages, h, spans, path, leaf, pages2, at, id);
        }
    }
    if path.len() > 0 {
        let (pp, ps) = path[path.len() - 1];
        assert(spans.contains_key(pp) && pp != leaf && pp != right);
        assert(node_ok(pages, spans, pp));
        lemma_above_leaf(pages, h, spans, path, leaf, pages2, at);
        assert(path[0].0 == h.root);
        assert(spans.contains_key(h.root) && h.root != leaf && h.root != right);
    }
    assert(path_ok(pages2, h2, spans2, path, leaf)) by {
        assert forall|i: int| 0 <= i < path.len() implies {
            let (n, sl) = #[trigger] path[i];
            &&& spans2.contains_key(n)
            &&& spans2[n].level == h2.height - 1 - i
            &&& sl < entries_of(pages2[n]).len()
            &&& through(pages2, path[i]) == through(pages, path[i])
        } by {
            assert(spans.contains_key(path[i].0));
            assert(path[i].0 != leaf && path[i].0 != right);
        }
    }
}

} // verus!
