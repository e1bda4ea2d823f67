//! What the tree pages mean: the map from key to value that they hold, and what keeps it one.
//!
//! The one invariant everything rests on is that every key under child `i` of an interior page
//! is below separator `i + 1`. It is told here by giving every page of the tree a span of keys:
//! the root has all of them, and the spans of a page's children are cut out of its own by its
//! separators.

use super::header::Header;
use super::page::{
    ascending, child_at, child_slot, entries_of, lemma_child_slot_encloses, lemma_entries_len,
    lemma_rank, lemma_rank_parts, level_of, next_of, page_fits, rank, separators_ascend, slot_of,
    NO_PAGE,
};
use vstd::prelude::*;

verus! {

/// The tree pages, by id.
pub type Pages = Map<u32, Seq<u8>>;

/// One more than the largest key.
pub open spec fn key_limit() -> int {
    0x1_0000_0000
}

/// How high above the leaves a page stands, and which keys may stand under it: those from `lo`
/// up to and without `hi`.
#[verifier::ext_equal]
pub struct Span {
    pub level: int,
    pub lo: int,
    pub hi: int,
}

impl Span {
    pub open spec fn has(self, key: int) -> bool {
        self.lo <= key < self.hi
    }
}

pub type Spans = Map<u32, Span>;

/// The span of child `i` of a page with the entries `e` and the span `s`.
pub open spec fn child_span(e: Seq<(u32, u32)>, s: Span, i: int) -> Span {
    Span {
        level: s.level - 1,
        lo: if i == 0 {
            s.lo
        } else {
            e[i].0 as int
        },
        hi: if i + 1 < e.len() {
            e[i + 1].0 as int
        } else {
            s.hi
        },
    }
}

/// The keys of a leaf lie in its span, and its sibling takes over where the span ends.
pub open spec fn leaf_ok(p: Seq<u8>, spans: Spans, s: Span) -> bool {
    let e = entries_of(p);
    &&& ascending(e)
    &&& forall|i: int| 0 <= i < e.len() ==> s.has(#[trigger] e[i].0 as int)
    &&& if s.hi == key_limit() {
        next_of(p) == NO_PAGE
    } else {
        &&& spans.contains_key(next_of(p))
        &&& spans[next_of(p)].level == 0
        &&& spans[next_of(p)].lo == s.hi
    }
}

/// The separators of an interior page lie in its span and cut it into those of its children.
pub open spec fn interior_ok(p: Seq<u8>, spans: Spans, s: Span) -> bool {
    let e = entries_of(p);
    &&& e.len() >= 1
    &&& separators_ascend(e)
    &&& forall|i: int| 1 <= i < e.len() ==> s.lo < #[trigger] e[i].0 < s.hi
    &&& forall|i: int|
        0 <= i < e.len() ==> {
            &&& spans.contains_key(#[trigger] e[i].1)
            &&& spans[e[i].1] == child_span(e, s, i)
        }
}

pub open spec fn node_ok(pages: Pages, spans: Spans, id: u32) -> bool {
    let p = pages[id];
    let s = spans[id];
    &&& pages.contains_key(id)
    &&& page_fits(p)
    &&& level_of(p) == s.level
    &&& s.lo < s.hi
    &&& if s.level == 0 {
        leaf_ok(p, spans, s)
    } else {
        interior_ok(p, spans, s)
    }
}

/// Page ids come from the allocator, no page stands above the root, and two pages of one level
/// share no key.
pub open spec fn spread(h: Header, spans: Spans) -> bool {
    &&& forall|id: u32| #[trigger]
        spans.contains_key(id) ==> 1 <= id < h.next_page && 0 <= spans[id].level < h.height
    &&& forall|a: u32, b: u32|
        #![trigger spans.contains_key(a), spans.contains_key(b)]
        spans.contains_key(a) && spans.contains_key(b) && a != b && spans[a].level
            == spans[b].level ==> spans[a].hi <= spans[b].lo || spans[b].hi <= spans[a].lo
    &&& spans.contains_key(h.first_leaf)
    &&& spans[h.first_leaf].level == 0
    &&& spans[h.first_leaf].lo == 0
}

/// The leaves.
pub open spec fn leaves(spans: Spans) -> Set<u32> {
    Set::new(|id: u32| spans.contains_key(id) && spans[id].level == 0)
}

/// How many keys the span of a page has at least that is not the last of its level: a leaf is
/// split where it has more than twice as many, and an interior page where it has more than twice
/// as many children.
pub open spec fn least_width(level: int) -> int
    decreases level,
{
    if level <= 0 {
        256
    } else {
        256 * least_width(level - 1)
    }
}

/// Every page but the last of its level has a wide span.
#[verifier::opaque]
pub open spec fn roomy(spans: Spans) -> bool {
    forall|id: u32| #[trigger]
        spans.contains_key(id) && spans[id].hi < key_limit() ==> spans[id].hi - spans[id].lo
            >= least_width(spans[id].level)
}

/// Every page below the next one that will be allocated is in the tree, and no span has more than
/// the keys.
#[verifier::opaque]
pub open spec fn allotted(next: int, spans: Spans) -> bool {
    forall|id: u32|
        #![trigger spans.contains_key(id)]
        {
            &&& 1 <= id < next ==> spans.contains_key(id)
            &&& spans.contains_key(id) ==> 0 <= spans[id].lo && spans[id].hi <= key_limit()
        }
}

/// A root above the leaves has more than one child.
pub open spec fn root_forks(pages: Pages, h: Header) -> bool {
    h.height > 1 ==> entries_of(pages[h.root]).len() >= 2
}

/// The span of a root.
pub open spec fn root_span(h: Header) -> Span {
    Span { level: h.height - 1, lo: 0, hi: key_limit() }
}

/// The pages make up a tree in which every page has its span.
pub open spec fn spans_ok(pages: Pages, h: Header, spans: Spans) -> bool {
    &&& 1 <= h.height
    &&& spans.contains_key(h.root)
    &&& spans[h.root] == root_span(h)
    &&& spread(h, spans)
    &&& forall|id: u32| #[trigger] spans.contains_key(id) ==> node_ok(pages, spans, id)
    &&& leaves(spans).finite()
    &&& leaves(spans).len() == h.leaf_cnt
    &&& roomy(spans)
    &&& allotted(h.next_page as int, spans)
    &&& root_forks(pages, h)
}

// -- lookup ------------------------------------------------------------------------------

/// The value of `key` among the entries of a leaf.
pub open spec fn leaf_get(e: Seq<(u32, u32)>, key: u32) -> Option<u32> {
    match slot_of(e, key) {
        Ok(slot) => Some(e[slot].1),
        Err(_) => None,
    }
}

/// The leaf that a descent for `key` ends in, `left` levels below page `id`.
pub open spec fn leaf_for(pages: Pages, id: u32, left: nat, key: u32) -> u32
    decreases left,
{
    if left == 0 {
        id
    } else {
        leaf_for(pages, child_at(pages[id], key), (left - 1) as nat, key)
    }
}

/// How many levels a descent goes down.
pub open spec fn depth_of(h: Header) -> nat {
    if h.height == 0 {
        0
    } else {
        (h.height - 1) as nat
    }
}

/// What a lookup of `key` finds.
pub open spec fn get(pages: Pages, h: Header, key: u32) -> Option<u32> {
    leaf_get(entries_of(pages[leaf_for(pages, h.root, depth_of(h), key)]), key)
}

/// The map that the tree holds.
pub open spec fn contents(pages: Pages, h: Header) -> Map<u32, u32> {
    Map::new(|key: u32| get(pages, h, key) is Some, |key: u32| get(pages, h, key)->0)
}

/// The counters and bounds of the header are those of the map.
pub open spec fn counts_ok(pages: Pages, h: Header) -> bool {
    &&& contents(pages, h).dom().finite()
    &&& contents(pages, h).dom().len() == h.entry_cnt
    &&& forall|key: u32|
        #[trigger] contents(pages, h).contains_key(key) ==> h.min_key <= key <= h.max_key
}

/// The pages and the header make up an index.
pub open spec fn tree_ok(pages: Pages, h: Header) -> bool {
    &&& exists|spans: Spans| spans_ok(pages, h, spans)
    &&& counts_ok(pages, h)
}

/// Some leaf has the entry `(key, value)`.
pub open spec fn held(pages: Pages, spans: Spans, key: u32, value: u32) -> bool {
    exists|id: u32, i: int| #[trigger] held_at(pages, spans, id, i, key, value)
}

pub open spec fn held_at(
    pages: Pages,
    spans: Spans,
    id: u32,
    i: int,
    key: u32,
    value: u32,
) -> bool {
    &&& spans.contains_key(id)
    &&& spans[id].level == 0
    &&& 0 <= i < entries_of(pages[id]).len()
    &&& entries_of(pages[id])[i] == (key, value)
}

/// A key is found in a leaf where some entry has it, with the value of that entry.
pub proof fn lemma_leaf_get(e: Seq<(u32, u32)>, i: int)
    requires
        ascending(e),
        0 <= i < e.len(),
    ensures
        leaf_get(e, e[i].0) == Some(e[i].1),
{
    lemma_rank(e, e[i].0, i);
}

/// A key that is found in a leaf stands in one of its entries.
pub proof fn lemma_leaf_found(e: Seq<(u32, u32)>, key: u32)
    requires
        ascending(e),
        leaf_get(e, key) is Some,
    ensures
        0 <= rank(e, key) < e.len(),
        e[rank(e, key)] == (key, leaf_get(e, key)->0),
{
    lemma_rank_parts(e, key);
}

/// A descent stays in the tree, goes down one level per page, and ends in the leaf whose span
/// has the key.
pub proof fn lemma_leaf_for(pages: Pages, h: Header, spans: Spans, id: u32, left: nat, key: u32)
    requires
        forall|id: u32| #[trigger] spans.contains_key(id) ==> node_ok(pages, spans, id),
        spans.contains_key(id),
        spans[id].level == left,
        spans[id].has(key as int),
    ensures
        spans.contains_key(leaf_for(pages, id, left, key)),
        spans[leaf_for(pages, id, left, key)].level == 0,
        spans[leaf_for(pages, id, left, key)].has(key as int),
    decreases left,
{
    if left > 0 {
        assert(node_ok(pages, spans, id));
        let e = entries_of(pages[id]);
        let slot = child_slot(e, key);
        lemma_entries_len(pages[id]);
        lemma_child_slot_encloses(e, key);
        assert(e[slot].1 == child_at(pages[id], key));
        assert(spans.contains_key(e[slot].1));
        assert(spans[e[slot].1] == child_span(e, spans[id], slot));
        lemma_leaf_for(pages, h, spans, e[slot].1, (left - 1) as nat, key);
    }
}

/// A lookup finds what some leaf holds, and nothing else.
pub proof fn lemma_get_held(pages: Pages, h: Header, spans: Spans, key: u32)
    requires
        spans_ok(pages, h, spans),
    ensures
        forall|value: u32|
            get(pages, h, key) == Some(value) <==> #[trigger] held(pages, spans, key, value),
{
    let leaf = leaf_for(pages, h.root, depth_of(h), key);
    lemma_leaf_for(pages, h, spans, h.root, depth_of(h), key);
    assert(node_ok(pages, spans, leaf));
    let e = entries_of(pages[leaf]);
    assert forall|value: u32|
        get(pages, h, key) == Some(value) <==> #[trigger] held(pages, spans, key, value) by {
        if get(pages, h, key) == Some(value) {
            let i = rank(e, key);
            lemma_leaf_found(e, key);
            assert(held_at(pages, spans, leaf, i, key, value));
        }
        if held(pages, spans, key, value) {
            let (id, i) = choose|id: u32, i: int|
                #[trigger] held_at(pages, spans, id, i, key, value);
            assert(node_ok(pages, spans, id));
            assert(spans[id].has(entries_of(pages[id])[i].0 as int));
            assert(id == leaf);
            lemma_leaf_get(e, i);
        }
    }
}

/// A change of one leaf leaves all descents as they are.
pub proof fn lemma_leaf_for_frame(
    pages: Pages,
    spans: Spans,
    leaf: u32,
    p: Seq<u8>,
    id: u32,
    left: nat,
    key: u32,
)
    requires
        forall|id: u32| #[trigger] spans.contains_key(id) ==> node_ok(pages, spans, id),
        spans.contains_key(leaf),
        spans[leaf].level == 0,
        spans.contains_key(id),
        spans[id].level == left,
        spans[id].has(key as int),
    ensures
        leaf_for(pages.insert(leaf, p), id, left, key) == leaf_for(pages, id, left, key),
    decreases left,
{
    if left > 0 {
        assert(node_ok(pages, spans, id));
        let e = entries_of(pages[id]);
        let slot = child_slot(e, key);
        lemma_entries_len(pages[id]);
        lemma_child_slot_encloses(e, key);
        assert(e[slot].1 == child_at(pages[id], key));
        assert(spans.contains_key(e[slot].1));
        assert(spans[e[slot].1] == child_span(e, spans[id], slot));
        lemma_leaf_for_frame(pages, spans, leaf, p, e[slot].1, (left - 1) as nat, key);
    }
}

} // verus!
