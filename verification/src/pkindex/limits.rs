//! How large an index can get: there are only so many keys.

use super::header::Header;
use super::page::entries_of;
use super::tree::{
    allotted, child_span, key_limit, least_width, node_ok, root_span, roomy, spans_ok, tree_ok,
    Pages, Spans,
};
use vstd::prelude::*;

verus! {

/// An index has at most four levels: a split halves a full page, so every page but the last of
/// its level covers a wide span of keys, and there are only so many keys.
pub proof fn law_height(pages: Pages, h: Header)
    requires
        tree_ok(pages, h),
    ensures
        1 <= h.height <= 4,
{
    let spans = choose|spans: Spans| spans_ok(pages, h, spans);
    if h.height > 4 {
        assert(node_ok(pages, spans, h.root));
        let e = entries_of(pages[h.root]);
        let first = e[0].1;
        assert(spans.contains_key(first));
        assert(spans[first] == child_span(e, root_span(h), 0));
        reveal(roomy);
        lemma_four_levels(h.height - 2);
    }
}

/// From the fourth level above the leaves on, a wide span would have all keys.
proof fn lemma_four_levels(level: int)
    requires
        level >= 3,
    ensures
        least_width(level) >= key_limit(),
    decreases level,
{
    if level == 3 {
        assert(least_width(0) == 256);
        assert(least_width(1) == 256 * 256);
        assert(least_width(2) == 256 * 256 * 256);
    } else {
        lemma_four_levels(level - 1);
    }
}

/// So many numbers below `n` there are at most.
pub proof fn lemma_below(s: Set<u32>, n: int)
    requires
        0 <= n <= 0x1_0000_0000,
        forall|x: u32| #[trigger] s.contains(x) ==> x < n,
    ensures
        s.finite(),
        s.len() <= n,
    decreases n,
{
    if n == 0 {
        assert(s =~= Set::empty());
    } else {
        let top = (n - 1) as u32;
        lemma_below(s.remove(top), n - 1);
        if s.contains(top) {
            assert(s =~= s.remove(top).insert(top));
        } else {
            assert(s =~= s.remove(top));
        }
    }
}

/// Spans of at least `width` keys that share none and lie between `lo` and `hi`: there are only so
/// many.
proof fn lemma_disjoint_count(spans: Spans, ids: Set<u32>, width: int, lo: int, hi: int)
    requires
        ids.finite(),
        width > 0,
        lo <= hi,
        forall|id: u32| #[trigger]
            ids.contains(id) ==> lo <= spans[id].lo && spans[id].hi <= hi && spans[id].hi
                - spans[id].lo >= width,
        forall|a: u32, b: u32|
            #![trigger ids.contains(a), ids.contains(b)]
            ids.contains(a) && ids.contains(b) && a != b ==> spans[a].hi <= spans[b].lo
                || spans[b].hi <= spans[a].lo,
    ensures
        ids.len() * width <= hi - lo,
    decreases ids.len(),
{
    if ids.len() > 0 {
        let id = ids.choose();
        let below = ids.filter(|x: u32| x != id && spans[x].hi <= spans[id].lo);
        let above = ids.filter(|x: u32| x != id && spans[id].hi <= spans[x].lo);
        let rest = ids.remove(id);
        assert(below.subset_of(rest) && above.subset_of(rest));
        vstd::set_lib::lemma_len_subset(below, rest);
        vstd::set_lib::lemma_len_subset(above, rest);
        lemma_disjoint_count(spans, below, width, lo, spans[id].lo);
        lemma_disjoint_count(spans, above, width, spans[id].hi, hi);
        assert(rest =~= below.union(above)) by {
            assert forall|x: u32| rest.contains(x) implies below.union(above).contains(x) by {
                assert(ids.contains(x) && ids.contains(id));
            }
        }
        vstd::set_lib::lemma_len_union(below, above);
        let (m, n, k) = (below.len() as int, above.len() as int, ids.len() as int);
        assert(k * width <= (m + n + 1) * width) by (nonlinear_arith)
            requires
                k <= m + n + 1,
                width > 0,
        ;
        assert((m + n + 1) * width == m * width + n * width + width) by (nonlinear_arith);
    } else {
        assert(ids.len() * width == 0) by (nonlinear_arith)
            requires
                ids.len() == 0,
        ;
    }
}

/// The pages of one level.
spec fn level_ids(spans: Spans, level: int) -> Set<u32> {
    Set::new(|id: u32| spans.contains_key(id) && spans[id].level == level)
}

/// So many pages a level has at most: each but the last has a wide span.
proof fn lemma_level_count(pages: Pages, h: Header, spans: Spans, level: int, most: int)
    requires
        spans_ok(pages, h, spans),
        most * least_width(level) == key_limit(),
        least_width(level) > 0,
    ensures
        level_ids(spans, level).finite(),
        level_ids(spans, level).len() <= most + 1,
{
    let ids = level_ids(spans, level);
    let w = least_width(level);
    assert forall|id: u32| #[trigger] ids.contains(id) implies id < h.next_page by {
        assert(spans.contains_key(id));
    }
    lemma_below(ids, h.next_page as int);
    let wide = ids.filter(|id: u32| spans[id].hi < key_limit());
    let last = ids.filter(|id: u32| spans[id].hi >= key_limit());
    assert(ids =~= wide.union(last));
    vstd::set_lib::lemma_len_union(wide, last);
    assert forall|id: u32| #[trigger] wide.contains(id) implies 0 <= spans[id].lo
        && spans[id].hi <= key_limit() && spans[id].hi - spans[id].lo >= w by {
        reveal(roomy);
        reveal(allotted);
        assert(spans.contains_key(id));
    }
    assert forall|a: u32, b: u32|
        #![trigger wide.contains(a), wide.contains(b)]
        wide.contains(a) && wide.contains(b) && a != b implies spans[a].hi <= spans[b].lo
        || spans[b].hi <= spans[a].lo by {
        assert(spans.contains_key(a) && spans.contains_key(b));
    }
    lemma_disjoint_count(spans, wide, w, 0, key_limit());
    let n = wide.len() as int;
    assert(n <= most) by (nonlinear_arith)
        requires
            n * w <= most * w,
            w > 0,
    ;
    assert(last.len() <= 1) by {
        if last.len() > 1 {
            let a = last.choose();
            let b = last.remove(a).choose();
            assert(last.remove(a).len() > 0);
            assert(last.contains(a) && last.contains(b) && a != b);
            assert(spans.contains_key(a) && spans.contains_key(b));
            assert(node_ok(pages, spans, a) && node_ok(pages, spans, b));
            reveal(allotted);
        }
    }
}

/// An index never has more pages than there are ids: the allocator does not run out.
pub proof fn law_page_cnt(pages: Pages, h: Header)
    requires
        tree_ok(pages, h),
    ensures
        h.next_page <= 0x101_0106,
{
    let spans = choose|spans: Spans| spans_ok(pages, h, spans);
    law_height(pages, h);
    assert(least_width(0) == 0x100);
    assert(least_width(1) == 0x1_0000);
    assert(least_width(2) == 0x100_0000);
    assert(least_width(3) == 0x1_0000_0000);
    lemma_level_count(pages, h, spans, 0, 0x100_0000);
    lemma_level_count(pages, h, spans, 1, 0x1_0000);
    lemma_level_count(pages, h, spans, 2, 0x100);
    lemma_level_count(pages, h, spans, 3, 1);
    let (a, b, c, d) = (
        level_ids(spans, 0),
        level_ids(spans, 1),
        level_ids(spans, 2),
        level_ids(spans, 3),
    );
    let all = a.union(b).union(c.union(d));
    vstd::set_lib::lemma_len_union(a, b);
    vstd::set_lib::lemma_len_union(c, d);
    vstd::set_lib::lemma_len_union(a.union(b), c.union(d));
    if h.next_page > 1 {
        assert forall|id: u32| #[trigger] all.contains(id) <==> 1 <= id <= h.next_page - 1 by {
            reveal(allotted);
            assert(spans.contains_key(id) == spans.contains_key(id));
        }
        lemma_range(all, h.next_page - 1);
    }
}

/// There are `n` numbers from 1 to `n`.
pub proof fn lemma_range(s: Set<u32>, n: int)
    requires
        0 <= n < 0x1_0000_0000,
        forall|x: u32| #[trigger] s.contains(x) <==> 1 <= x <= n,
    ensures
        s.finite(),
        s.len() == n,
    decreases n,
{
    if n == 0 {
        assert(s =~= Set::empty());
    } else {
        let top = n as u32;
        lemma_range(s.remove(top), n - 1);
        assert(s =~= s.remove(top).insert(top));
    }
}

} // verus!
