//! The chain of siblings: every leaf knows the one after it.

use super::bulk::{entry_map, lemma_entry_map};
use super::header::Header;
use super::page::{ascending, entries_of, next_of, rank, NO_PAGE};
use super::tree::{
    allotted, contents, get, held, held_at, key_limit, leaf_get, leaves, lemma_get_held,
    lemma_leaf_found, lemma_leaf_get, node_ok, spans_ok, tree_ok, Pages, Spans,
};
use vstd::prelude::*;

verus! {

/// The entries of `n` leaves, of page `id` and those behind it.
pub open spec fn chained(pages: Pages, id: u32, n: nat) -> Seq<(u32, u32)>
    decreases n,
{
    if n == 0 {
        Seq::empty()
    } else {
        entries_of(pages[id]) + chained(pages, next_of(pages[id]), (n - 1) as nat)
    }
}

/// Where `n` siblings lead, from page `id` on.
pub open spec fn sibling(pages: Pages, id: u32, n: nat) -> u32
    decreases n,
{
    if n == 0 {
        id
    } else {
        sibling(pages, next_of(pages[id]), (n - 1) as nat)
    }
}

/// The leaves whose spans begin at `lo` or later.
spec fn leaves_from(spans: Spans, lo: int) -> Set<u32> {
    leaves(spans).filter(|id: u32| spans[id].lo >= lo)
}

/// Some entry of `e` is `(key, value)`.
spec fn listed(e: Seq<(u32, u32)>, key: u32, value: u32) -> bool {
    exists|i: int| 0 <= i < e.len() && #[trigger] e[i] == (key, value)
}

proof fn lemma_listed_both(a: Seq<(u32, u32)>, b: Seq<(u32, u32)>, key: u32, value: u32)
    ensures
        listed(a + b, key, value) <==> listed(a, key, value) || listed(b, key, value),
{
    if listed(a, key, value) {
        let i = choose|i: int| 0 <= i < a.len() && #[trigger] a[i] == (key, value);
        assert((a + b)[i] == (key, value));
    }
    if listed(b, key, value) {
        let i = choose|i: int| 0 <= i < b.len() && #[trigger] b[i] == (key, value);
        assert((a + b)[a.len() + i] == (key, value));
    }
    if listed(a + b, key, value) {
        let i = choose|i: int| 0 <= i < (a + b).len() && #[trigger] (a + b)[i] == (key, value);
        if i < a.len() {
            assert(a[i] == (key, value));
        } else {
            assert(b[i - a.len()] == (key, value));
        }
    }
}

/// The leaves from the span of `id` on are `id` and those from the end of that span on.
proof fn lemma_next_leaves(pages: Pages, h: Header, spans: Spans, id: u32)
    requires
        spans_ok(pages, h, spans),
        leaves(spans).contains(id),
    ensures
        leaves_from(spans, spans[id].lo) == leaves_from(spans, spans[id].hi).insert(id),
        !leaves_from(spans, spans[id].hi).contains(id),
        leaves_from(spans, spans[id].hi).finite(),
        spans[id].hi == key_limit() ==> leaves_from(spans, spans[id].hi) == Set::<u32>::empty(),
{
    let s = spans[id];
    assert(spans.contains_key(id));
    assert(node_ok(pages, spans, id));
    assert forall|other: u32| leaves(spans).contains(other) && other != id implies (spans[other].lo
        >= s.lo <==> spans[other].lo >= s.hi) by {
        assert(spans.contains_key(other));
        assert(node_ok(pages, spans, other));
    }
    assert(leaves_from(spans, s.lo) =~= leaves_from(spans, s.hi).insert(id));
    if s.hi == key_limit() {
        assert forall|other: u32| !leaves_from(spans, s.hi).contains(other) by {
            if leaves_from(spans, s.hi).contains(other) {
                reveal(allotted);
                assert(spans.contains_key(other));
                assert(node_ok(pages, spans, other));
            }
        }
        assert(leaves_from(spans, s.hi) =~= Set::empty());
    }
}

/// What the leaves hold from the span of `id` on: the entries of `id` and what they hold from the
/// end of that span on.
proof fn lemma_next_held(pages: Pages, h: Header, spans: Spans, id: u32, key: u32, value: u32)
    requires
        spans_ok(pages, h, spans),
        leaves(spans).contains(id),
    ensures
        held(pages, spans, key, value) && key >= spans[id].lo <==> listed(
            entries_of(pages[id]),
            key,
            value,
        ) || held(pages, spans, key, value) && key >= spans[id].hi,
{
    let s = spans[id];
    let e = entries_of(pages[id]);
    assert(spans.contains_key(id));
    assert(node_ok(pages, spans, id));
    if listed(e, key, value) {
        let i = choose|i: int| 0 <= i < e.len() && #[trigger] e[i] == (key, value);
        assert(s.has(e[i].0 as int));
        assert(held_at(pages, spans, id, i, key, value));
    }
    if held(pages, spans, key, value) && s.lo <= key < s.hi {
        let (other, i) = choose|other: u32, i: int| #[trigger]
            held_at(pages, spans, other, i, key, value);
        assert(spans.contains_key(other));
        assert(node_ok(pages, spans, other));
        assert(spans[other].has(entries_of(pages[other])[i].0 as int));
        assert(other == id);
        assert(e[i] == (key, value));
    }
}

/// The siblings from page `id` on list what the leaves hold from its span on, in key order, and
/// then end.
proof fn lemma_chain(pages: Pages, h: Header, spans: Spans, id: u32, n: nat)
    requires
        spans_ok(pages, h, spans),
        leaves(spans).contains(id),
        leaves_from(spans, spans[id].lo).finite(),
        leaves_from(spans, spans[id].lo).len() == n,
    ensures
        n > 0,
        sibling(pages, id, n) == NO_PAGE,
        ascending(chained(pages, id, n)),
        forall|i: int|
            0 <= i < chained(pages, id, n).len() ==> (#[trigger] chained(pages, id, n)[i]).0
                >= spans[id].lo,
        forall|key: u32, value: u32| #[trigger]
            listed(chained(pages, id, n), key, value) <==> held(pages, spans, key, value) && key
                >= spans[id].lo,
    decreases n,
{
    let s = spans[id];
    let p = pages[id];
    let e = entries_of(p);
    assert(spans.contains_key(id));
    assert(node_ok(pages, spans, id));
    lemma_next_leaves(pages, h, spans, id);
    let next = next_of(p);
    let more = chained(pages, next, (n - 1) as nat);
    let all = chained(pages, id, n);
    assert(all == e + more);
    if s.hi == key_limit() {
        assert(n == 1);
        assert(more =~= Seq::empty());
        assert(sibling(pages, next, 0) == next);
    } else {
        assert(spans.contains_key(next));
        assert(leaves(spans).contains(next));
        lemma_chain(pages, h, spans, next, (n - 1) as nat);
    }
    assert forall|i: int| 0 <= i < all.len() implies (#[trigger] all[i]).0 >= s.lo by {
        if i < e.len() {
            assert(all[i] == e[i]);
            assert(s.has(e[i].0 as int));
        } else {
            assert(all[i] == more[i - e.len()]);
        }
    }
    assert forall|i: int, j: int| 0 <= i < j < all.len() implies all[i].0 < all[j].0 by {
        if j < e.len() {
            assert(e[i].0 < e[j].0);
        } else if i < e.len() {
            assert(s.has(e[i].0 as int));
            assert(all[j] == more[j - e.len()]);
        } else {
            assert(more[i - e.len()].0 < more[j - e.len()].0);
        }
    }
    assert forall|key: u32, value: u32| #[trigger] listed(all, key, value) <==> held(
        pages,
        spans,
        key,
        value,
    ) && key >= s.lo by {
        lemma_listed_both(e, more, key, value);
        lemma_next_held(pages, h, spans, id, key, value);
        if s.hi != key_limit() {
            assert(listed(more, key, value) <==> held(pages, spans, key, value) && key
                >= spans[next].lo);
        } else {
            assert(!listed(more, key, value));
        }
    }
}

/// The chain of siblings goes from the first leaf through all leaves and ends. On its way it
/// passes every entry of the index, in key order.
pub proof fn law_siblings(pages: Pages, h: Header)
    requires
        tree_ok(pages, h),
    ensures
        ({
            let all = chained(pages, h.first_leaf, h.leaf_cnt as nat);
            &&& sibling(pages, h.first_leaf, h.leaf_cnt as nat) == NO_PAGE
            &&& ascending(all)
            &&& all.len() == h.entry_cnt
            &&& entry_map(all) == contents(pages, h)
        }),
{
    let spans = choose|spans: Spans| spans_ok(pages, h, spans);
    let all = chained(pages, h.first_leaf, h.leaf_cnt as nat);
    assert(leaves_from(spans, 0) =~= leaves(spans)) by {
        assert forall|id: u32| leaves(spans).contains(id) implies spans[id].lo >= 0 by {
            reveal(allotted);
            assert(spans.contains_key(id));
        }
    }
    assert(leaves(spans).contains(h.first_leaf));
    lemma_chain(pages, h, spans, h.first_leaf, h.leaf_cnt as nat);
    assert forall|key: u32| #[trigger] get(pages, h, key) == leaf_get(all, key) by {
        lemma_get_held(pages, h, spans, key);
        if get(pages, h, key) is Some {
            let value = get(pages, h, key)->0;
            assert(held(pages, spans, key, value));
            assert(listed(all, key, value));
            let i = choose|i: int| 0 <= i < all.len() && #[trigger] all[i] == (key, value);
            lemma_leaf_get(all, i);
        }
        if leaf_get(all, key) is Some {
            let value = leaf_get(all, key)->0;
            lemma_leaf_found(all, key);
            assert(all[rank(all, key)] == (key, value));
            assert(listed(all, key, value));
            assert(held(pages, spans, key, value));
        }
    }
    assert(entry_map(all) =~= contents(pages, h));
    lemma_entry_map(all);
}

} // verus!
