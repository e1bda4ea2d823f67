//! What a bulk load makes: leaves packed to a part of their room, and levels of interior pages
//! above them up to a single root.

use super::growth::{lemma_ascending_gap, lemma_children_width};
use super::header::Header;
use super::laws::bounds_exact;
use super::limits::lemma_range;
use super::page::{
    ascending, blank, entries_of, lemma_blank, lemma_with_entries, lemma_with_next, next_of, rank,
    with_entries, with_next, MAGIC_LEAF, MAGIC_NODE, MAX_ENTRIES, NO_PAGE,
};
use super::tree::{
    allotted, child_span, contents, get, held, held_at, key_limit, leaf_get, least_width, leaves,
    lemma_get_held, lemma_leaf_found, lemma_leaf_get, node_ok, root_span, roomy, spans_ok, tree_ok,
    Pages, Span, Spans,
};
use vstd::arithmetic::power::pow;
use vstd::prelude::*;

verus! {

/// How full bulk load leaves a page. The remaining 30% is the budget for inserts that arrive
/// before the next rebuild; lower it and the index is smaller but splits sooner.
pub const FILL_PERCENT: usize = 70;

#[verifier::nonlinear]
pub const BULK_FILL: usize = MAX_ENTRIES * FILL_PERCENT / 100;

/// How many entries bulk load puts into a page.
#[verifier::inline]
pub open spec fn fill() -> int {
    357
}

/// How many pages `n` entries take.
pub open spec fn chunk_total(n: int) -> int {
    (n + fill() - 1) / fill()
}

/// The entries of page `i`.
pub open spec fn chunk(s: Seq<(u32, u32)>, i: int) -> Seq<(u32, u32)> {
    s.subrange(
        fill() * i,
        if fill() * (i + 1) < s.len() {
            fill() * (i + 1)
        } else {
            s.len() as int
        },
    )
}

/// How many leaves `n` entries take. An empty index still gets one, so lookups have a page to
/// land on.
pub open spec fn leaf_total(n: int) -> int {
    if n == 0 {
        1
    } else {
        chunk_total(n)
    }
}

/// Leaf `i` of the entries `e`, with `next` for its sibling.
pub open spec fn bulk_leaf(e: Seq<(u32, u32)>, i: int, next: u32) -> Seq<u8> {
    with_next(with_entries(blank(MAGIC_LEAF, 0), chunk(e, i)), next)
}

/// The leaves. Page `i` of the sequence has the id `i + 1`, so the sibling of leaf `i` is page
/// `i + 2`, but for the last, which has none.
pub open spec fn leaf_pages(e: Seq<(u32, u32)>) -> Seq<Seq<u8>> {
    let n = leaf_total(e.len() as int);
    Seq::new(
        n as nat,
        |i: int|
            bulk_leaf(
                e,
                i,
                if i + 1 < n {
                    (i + 2) as u32
                } else {
                    NO_PAGE
                },
            ),
    )
}

/// The first key of leaf `i`.
pub open spec fn leaf_separator(e: Seq<(u32, u32)>, i: int) -> u32 {
    if fill() * i < e.len() {
        e[fill() * i].0
    } else {
        0
    }
}

/// The separators and ids of the leaves.
pub open spec fn leaf_parents(e: Seq<(u32, u32)>) -> Seq<(u32, u32)> {
    Seq::new(
        leaf_total(e.len() as int) as nat,
        |i: int| (leaf_separator(e, i), (i + 1) as u32),
    )
}

/// The interior pages of one level over the children `current`.
pub open spec fn node_pages(current: Seq<(u32, u32)>, level: int) -> Seq<Seq<u8>> {
    Seq::new(
        chunk_total(current.len() as int) as nat,
        |i: int| with_entries(blank(MAGIC_NODE, level as u8), chunk(current, i)),
    )
}

/// The separators and ids of those pages, the first of which has the id `next`.
pub open spec fn node_parents(current: Seq<(u32, u32)>, next: int) -> Seq<(u32, u32)> {
    Seq::new(
        chunk_total(current.len() as int) as nat,
        |i: int| (current[fill() * i].0, (next + i) as u32),
    )
}

/// All pages once the levels above `current` are added to `pages`, the root and the height.
pub open spec fn tower(pages: Seq<Seq<u8>>, current: Seq<(u32, u32)>, level: int) -> (
    Seq<Seq<u8>>,
    u32,
    int,
)
    decreases current.len(),
{
    if current.len() <= 1 {
        (pages, current[0].1, level)
    } else {
        tower(
            pages + node_pages(current, level),
            node_parents(current, pages.len() as int + 1),
            level + 1,
        )
    }
}

/// The pages, the root and the height of an index that was loaded with `e`.
pub open spec fn bulk(e: Seq<(u32, u32)>) -> (Seq<Seq<u8>>, u32, int) {
    tower(leaf_pages(e), leaf_parents(e), 1)
}

/// The header of an index that was loaded with `e`.
pub open spec fn bulk_header(e: Seq<(u32, u32)>, source_len: u64, source_frame_cnt: u32) -> Header {
    let (pages, root, height) = bulk(e);
    Header {
        root,
        height: height as u32,
        first_leaf: 1,
        next_page: (pages.len() + 1) as u32,
        leaf_cnt: leaf_total(e.len() as int) as u32,
        entry_cnt: e.len() as u64,
        min_key: if e.len() == 0 {
            0
        } else {
            e[0].0
        },
        max_key: if e.len() == 0 {
            0
        } else {
            e.last().0
        },
        source_len,
        source_frame_cnt,
        clean: true,
    }
}

/// Page `i` of the sequence stands under the id `i + 1`.
pub open spec fn laid_out(pages: Pages, s: Seq<Seq<u8>>) -> bool {
    forall|i: int| 0 <= i < s.len() ==> #[trigger] stands(pages, i + 1, s[i])
}

/// The page under an id.
pub open spec fn stands(pages: Pages, id: int, page: Seq<u8>) -> bool {
    &&& pages.contains_key(id as u32)
    &&& pages[id as u32] == page
}

/// The map that the entries make.
pub open spec fn entry_map(e: Seq<(u32, u32)>) -> Map<u32, u32> {
    Map::new(|key: u32| leaf_get(e, key) is Some, |key: u32| leaf_get(e, key)->0)
}

/// The separators ascend, and the first of them that counts is above 0.
spec fn row_ascends(current: Seq<(u32, u32)>) -> bool {
    &&& current.len() >= 1
    &&& forall|i: int, j: int| 1 <= i < j < current.len() ==> current[i].0 < current[j].0
    &&& current.len() > 1 ==> current[1].0 > 0
}

/// The span of page `i` of a row.
spec fn row_span(current: Seq<(u32, u32)>, level: int, i: int) -> Span {
    Span {
        level,
        lo: if i == 0 {
            0
        } else {
            current[i].0 as int
        },
        hi: if i + 1 < current.len() {
            current[i + 1].0 as int
        } else {
            key_limit()
        },
    }
}

/// The pages up to a level that has no parents yet: `current` are its separators and ids.
#[verifier::opaque]
spec fn forest(pages: Pages, spans: Spans, current: Seq<(u32, u32)>, level: int, next: int) -> bool {
    &&& row_ascends(current)
    &&& forall|i: int|
        0 <= i < current.len() ==> spans.contains_key(#[trigger] current[i].1)
            && spans[current[i].1] == row_span(current, level, i)
    &&& forall|id: u32| #[trigger]
        spans.contains_key(id) ==> 1 <= id < next && 0 <= spans[id].level <= level && node_ok(
            pages,
            spans,
            id,
        )
    &&& forall|a: u32, b: u32|
        #![trigger spans.contains_key(a), spans.contains_key(b)]
        spans.contains_key(a) && spans.contains_key(b) && a != b && spans[a].level
            == spans[b].level ==> spans[a].hi <= spans[b].lo || spans[b].hi <= spans[a].lo
    &&& spans.contains_key(1)
    &&& spans[1].level == 0
    &&& spans[1].lo == 0
    &&& roomy(spans)
    &&& allotted(next, spans)
}

/// The spans with those of one more level above `current`.
spec fn raised_spans(spans: Spans, current: Seq<(u32, u32)>, level: int, next: int) -> Spans {
    let up = node_parents(current, next);
    Map::new(
        |id: u32| spans.contains_key(id) || next <= id < next + up.len(),
        |id: u32|
            if spans.contains_key(id) {
                spans[id]
            } else {
                row_span(up, level + 1, id - next)
            },
    )
}

proof fn lemma_chunks(n: int, i: int)
    requires
        n >= 1,
        0 <= i < chunk_total(n),
    ensures
        0 <= fill() * i < n,
        i + 1 < chunk_total(n) <==> fill() * (i + 1) < n,
        chunk_total(n) >= 1,
        n > 1 ==> chunk_total(n) < n,
{
}

/// The parents of a row make a row too.
proof fn lemma_row_up(current: Seq<(u32, u32)>, next: int)
    requires
        row_ascends(current),
    ensures
        row_ascends(node_parents(current, next)),
{
    let n = current.len() as int;
    let up = node_parents(current, next);
    lemma_chunks(n, 0);
    assert forall|i: int, j: int| 1 <= i < j < up.len() implies up[i].0 < up[j].0 by {
        lemma_chunks(n, i);
        lemma_chunks(n, j);
        assert(current[fill() * i].0 < current[fill() * j].0);
    }
    if up.len() > 1 {
        lemma_chunks(n, 1);
        assert(current[1].0 < current[fill() * 1].0);
    }
}

/// An interior page over a part of a row is as it should be.
proof fn lemma_bulk_node(
    pages: Pages,
    spans: Spans,
    current: Seq<(u32, u32)>,
    level: int,
    next: int,
    i: int,
)
    requires
        forest(pages, spans, current, level, next),
        0 <= level < 255,
        0 <= i < chunk_total(current.len() as int),
        next + chunk_total(current.len() as int) <= u32::MAX,
        pages.contains_key((next + i) as u32),
        pages[(next + i) as u32] == with_entries(
            blank(MAGIC_NODE, (level + 1) as u8),
            chunk(current, i),
        ),
    ensures
        node_ok(pages, raised_spans(spans, current, level, next), (next + i) as u32),
{
    reveal(forest);
    let id = (next + i) as u32;
    let n = current.len() as int;
    let up = node_parents(current, next);
    let spans2 = raised_spans(spans, current, level, next);
    let c = chunk(current, i);
    let s = row_span(up, level + 1, i);
    lemma_chunks(n, i);
    if i + 1 < up.len() {
        lemma_chunks(n, i + 1);
    }
    assert(!spans.contains_key(id));
    assert(spans2[id] == s);
    lemma_blank(MAGIC_NODE, (level + 1) as u8);
    lemma_with_entries(blank(MAGIC_NODE, (level + 1) as u8), c);
    lemma_row_up(current, next);
    let at = fill() * i;
    assert forall|j: int| 0 <= j < c.len() implies c[j] == current[at + j] by {}
    assert forall|j: int, k: int| 1 <= j < k < c.len() implies c[j].0 < c[k].0 by {
        assert(current[at + j].0 < current[at + k].0);
    }
    assert forall|j: int| 1 <= j < c.len() implies s.lo < #[trigger] c[j].0 < s.hi by {
        if i > 0 {
            assert(current[at].0 < current[at + j].0);
        } else if j > 1 {
            assert(current[1].0 < current[at + j].0);
        }
        if i + 1 < up.len() {
            assert(current[at + j].0 < current[fill() * (i + 1)].0);
        }
    }
    assert forall|j: int| 0 <= j < c.len() implies {
        &&& spans2.contains_key(#[trigger] c[j].1)
        &&& spans2[c[j].1] == child_span(c, s, j)
    } by {
        let q = at + j;
        assert(spans.contains_key(current[q].1));
        assert(spans[current[q].1] == row_span(current, level, q));
        if j + 1 < c.len() {
            assert(c[j + 1] == current[q + 1]);
        } else if i + 1 < up.len() {
            assert(up[i + 1].0 == current[fill() * (i + 1)].0);
        }
        if j == 0 && i > 0 {
            assert(up[i].0 == current[fill() * i].0);
        }
        assert(row_span(current, level, q) =~= child_span(c, s, j));
    }
    assert(s.lo < s.hi) by {
        if i > 0 && i + 1 < up.len() {
            assert(up[i].0 < up[i + 1].0);
        }
    }
}

/// A page over a part of a row that is not the last has a wide span.
proof fn lemma_raised_roomy(spans: Spans, current: Seq<(u32, u32)>, level: int, next: int)
    requires
        roomy(spans),
        0 <= level,
        1 <= next,
        current.len() > 1,
        forall|i: int|
            0 <= i < current.len() ==> spans.contains_key(#[trigger] current[i].1)
                && spans[current[i].1] == row_span(current, level, i),
    ensures
        roomy(raised_spans(spans, current, level, next)),
{
    let up = node_parents(current, next);
    let spans2 = raised_spans(spans, current, level, next);
    let s = Span { level: level + 1, lo: 0, hi: key_limit() };
    lemma_width_positive(level);
    assert forall|id: u32| #[trigger]
        spans2.contains_key(id) && spans2[id].hi < key_limit() implies spans2[id].hi
        - spans2[id].lo >= least_width(spans2[id].level) by {
        reveal(roomy);
        if !spans.contains_key(id) {
            let i = id - next;
            let n = current.len() as int;
            lemma_chunks(n, i);
            lemma_chunks(n, i + 1);
            let (a, b) = (fill() * i, fill() * (i + 1));
            assert forall|j: int| a <= j < b implies {
                &&& spans.contains_key(#[trigger] current[j].1)
                &&& spans[current[j].1] == child_span(current, s, j)
            } by {
                assert(row_span(current, level, j) =~= child_span(current, s, j));
            }
            lemma_children_width(current, s, spans, a, b);
            let w = least_width(level);
            assert((b - a) * w == 357 * w);
        } else {
            assert(spans2[id] == spans[id]);
        }
    }
    reveal(roomy);
}

proof fn lemma_width_positive(level: int)
    ensures
        least_width(level) > 0,
    decreases level,
{
    if level > 0 {
        lemma_width_positive(level - 1);
    }
}

/// The leaves but the last have wide spans.
proof fn lemma_leaves_roomy(e: Seq<(u32, u32)>)
    requires
        ascending(e),
    ensures
        roomy(leaf_spans(e)),
{
    reveal(roomy);
    let n = e.len() as int;
    let row = leaf_parents(e);
    let spans = leaf_spans(e);
    assert forall|id: u32| #[trigger]
        spans.contains_key(id) && spans[id].hi < key_limit() implies spans[id].hi - spans[id].lo
        >= least_width(spans[id].level) by {
        let i = id - 1;
        lemma_chunks(n, i);
        lemma_chunks(n, i + 1);
        lemma_ascending_gap(e, fill() * i, fill() * (i + 1));
    }
}

/// Page `i` of a level over `current` stands where it should.
spec fn level_page(
    pages: Pages,
    current: Seq<(u32, u32)>,
    level: int,
    next: int,
    i: int,
) -> bool {
    &&& pages.contains_key((next + i) as u32)
    &&& pages[(next + i) as u32] == with_entries(
        blank(MAGIC_NODE, level as u8),
        chunk(current, i),
    )
}

/// All pages of a level over `current` stand where they should.
spec fn level_laid(pages: Pages, current: Seq<(u32, u32)>, level: int, next: int) -> bool {
    forall|i: int|
        0 <= i < chunk_total(current.len() as int) ==> #[trigger] level_page(
            pages,
            current,
            level,
            next,
            i,
        )
}

/// One more level of interior pages.
proof fn lemma_bulk_level(
    pages: Pages,
    spans: Spans,
    current: Seq<(u32, u32)>,
    level: int,
    next: int,
)
    requires
        forest(pages, spans, current, level - 1, next),
        1 <= level <= 255,
        current.len() > 1,
        next + chunk_total(current.len() as int) <= u32::MAX,
        level_laid(pages, current, level, next),
    ensures
        forest(
            pages,
            raised_spans(spans, current, level - 1, next),
            node_parents(current, next),
            level,
            next + chunk_total(current.len() as int),
        ),
        leaves(raised_spans(spans, current, level - 1, next)) == leaves(spans),
        chunk_total(current.len() as int) == 1 ==> entries_of(pages[next as u32]).len() >= 2,
{
    reveal(forest);
    let n = current.len() as int;
    let up = node_parents(current, next);
    let spans2 = raised_spans(spans, current, level - 1, next);
    lemma_row_up(current, next);
    lemma_raised_roomy(spans, current, level - 1, next);
    assert(allotted(next + up.len(), spans2)) by {
        reveal(allotted);
        assert forall|id: u32|
            #![trigger spans2.contains_key(id)]
            {
                &&& 1 <= id < next + up.len() ==> spans2.contains_key(id)
                &&& spans2.contains_key(id) ==> 0 <= spans2[id].lo && spans2[id].hi
                    <= key_limit()
            } by {
            assert(spans.contains_key(id) == spans.contains_key(id));
        }
    }
    if up.len() == 1 {
        assert(level_page(pages, current, level, next, 0));
        lemma_chunks(n, 0);
        lemma_blank(MAGIC_NODE, level as u8);
        lemma_with_entries(blank(MAGIC_NODE, level as u8), chunk(current, 0));
    }
    assert(leaves(spans2) =~= leaves(spans));
    assert forall|i: int| 0 <= i < up.len() implies spans2.contains_key(#[trigger] up[i].1)
        && spans2[up[i].1] == row_span(up, level, i) by {
        assert(!spans.contains_key(up[i].1));
    }
    assert forall|id: u32| #[trigger] spans2.contains_key(id) implies 1 <= id < next + up.len()
        && 0 <= spans2[id].level <= level && node_ok(pages, spans2, id) by {
        if spans.contains_key(id) {
            assert(node_ok(pages, spans, id));
            let e = entries_of(pages[id]);
            if spans[id].level == 0 {
                if spans[id].hi != key_limit() {
                    assert(spans.contains_key(next_of(pages[id])));
                }
            } else {
                assert forall|i: int| 0 <= i < e.len() implies {
                    &&& spans2.contains_key(#[trigger] e[i].1)
                    &&& spans2[e[i].1] == child_span(e, spans2[id], i)
                } by {
                    assert(spans.contains_key(e[i].1));
                }
            }
        } else {
            let i = id - next;
            assert(level_page(pages, current, level, next, i));
            lemma_bulk_node(pages, spans, current, level - 1, next, i);
            assert(spans.contains_key(1));
        }
    }
    assert forall|a: u32, b: u32|
        #![trigger spans2.contains_key(a), spans2.contains_key(b)]
        spans2.contains_key(a) && spans2.contains_key(b) && a != b && spans2[a].level
            == spans2[b].level implies spans2[a].hi <= spans2[b].lo || spans2[b].hi
        <= spans2[a].lo by {
        if spans.contains_key(a) {
            assert(spans.contains_key(b));
        } else {
            assert(!spans.contains_key(b));
            let (i, j) = (a - next, b - next);
            if i < j {
                if i + 1 < j {
                    assert(up[i + 1].0 < up[j].0);
                }
            } else {
                if j + 1 < i {
                    assert(up[j + 1].0 < up[i].0);
                }
            }
        }
    }
}

/// The spans of the leaves.
spec fn leaf_spans(e: Seq<(u32, u32)>) -> Spans {
    let row = leaf_parents(e);
    Map::new(|id: u32| 1 <= id <= row.len(), |id: u32| row_span(row, 0, id - 1))
}

proof fn lemma_leaf_row(e: Seq<(u32, u32)>)
    requires
        ascending(e),
    ensures
        row_ascends(leaf_parents(e)),
{
    let n = e.len() as int;
    let row = leaf_parents(e);
    if n > 0 {
        lemma_chunks(n, 0);
    }
    assert forall|i: int, j: int| 1 <= i < j < row.len() implies row[i].0 < row[j].0 by {
        lemma_chunks(n, i);
        lemma_chunks(n, j);
        assert(e[fill() * i].0 < e[fill() * j].0);
    }
    if row.len() > 1 {
        lemma_chunks(n, 1);
        assert(e[0].0 < e[fill() * 1].0);
    }
}

/// A bulk-loaded leaf is as it should be.
proof fn lemma_bulk_leaf(pages: Pages, e: Seq<(u32, u32)>, i: int)
    requires
        ascending(e),
        e.len() <= 0x1_0000_0000,
        laid_out(pages, leaf_pages(e)),
        0 <= i < leaf_total(e.len() as int),
    ensures
        node_ok(pages, leaf_spans(e), (i + 1) as u32),
        entries_of(pages[(i + 1) as u32]) == chunk(e, i),
{
    let n = e.len() as int;
    let row = leaf_parents(e);
    let spans = leaf_spans(e);
    let id = (i + 1) as u32;
    let c = chunk(e, i);
    let s = spans[id];
    let next = if i + 1 < row.len() {
        (i + 2) as u32
    } else {
        NO_PAGE
    };
    assert(leaf_pages(e)[i] == bulk_leaf(e, i, next));
    assert(stands(pages, i + 1, leaf_pages(e)[i]));
    if n > 0 {
        lemma_chunks(n, i);
        if i + 1 < row.len() {
            lemma_chunks(n, i + 1);
        }
    }
    lemma_leaf_row(e);
    lemma_blank(MAGIC_LEAF, 0);
    lemma_with_entries(blank(MAGIC_LEAF, 0), c);
    lemma_with_next(with_entries(blank(MAGIC_LEAF, 0), c), next);
    let at = fill() * i;
    assert forall|j: int| 0 <= j < c.len() implies c[j] == e[at + j] by {}
    assert forall|j: int, k: int| 0 <= j < k < c.len() implies c[j].0 < c[k].0 by {
        assert(e[at + j].0 < e[at + k].0);
    }
    assert forall|j: int| 0 <= j < c.len() implies s.has(#[trigger] c[j].0 as int) by {
        if j > 0 {
            assert(e[at].0 < e[at + j].0);
        }
        if i + 1 < row.len() {
            assert(e[at + j].0 < e[fill() * (i + 1)].0);
        }
    }
    assert(s.lo < s.hi) by {
        if i > 0 && i + 1 < row.len() {
            assert(row[i].0 < row[i + 1].0);
        }
    }
}

/// The bulk-loaded leaves are a row that holds the entries.
proof fn lemma_bulk_leaves(pages: Pages, e: Seq<(u32, u32)>)
    requires
        ascending(e),
        e.len() <= 0x1_0000_0000,
        laid_out(pages, leaf_pages(e)),
    ensures
        forest(pages, leaf_spans(e), leaf_parents(e), 0, leaf_total(e.len() as int) + 1),
        leaves(leaf_spans(e)).finite(),
        leaves(leaf_spans(e)).len() == leaf_total(e.len() as int),
{
    reveal(forest);
    let n = e.len() as int;
    let row = leaf_parents(e);
    let spans = leaf_spans(e);
    lemma_leaf_row(e);
    assert forall|i: int| 0 <= i < row.len() implies spans.contains_key(#[trigger] row[i].1)
        && spans[row[i].1] == row_span(row, 0, i) by {}
    assert forall|id: u32| #[trigger] spans.contains_key(id) implies 1 <= id < row.len() + 1 && 0
        <= spans[id].level <= 0 && node_ok(pages, spans, id) by {
        lemma_bulk_leaf(pages, e, id - 1);
    }
    assert forall|a: u32, b: u32|
        #![trigger spans.contains_key(a), spans.contains_key(b)]
        spans.contains_key(a) && spans.contains_key(b) && a != b && spans[a].level
            == spans[b].level implies spans[a].hi <= spans[b].lo || spans[b].hi
        <= spans[a].lo by {
        let (i, j) = (a - 1, b - 1);
        if i < j {
            if i + 1 < j {
                assert(row[i + 1].0 < row[j].0);
            }
        } else {
            if j + 1 < i {
                assert(row[j + 1].0 < row[i].0);
            }
        }
    }
    lemma_range(leaves(spans), row.len() as int);
    lemma_leaves_roomy(e);
    reveal(allotted);
}

/// The bulk-loaded leaves hold the entries.
proof fn lemma_bulk_held(pages: Pages, e: Seq<(u32, u32)>, key: u32, value: u32)
    requires
        ascending(e),
        e.len() <= 0x1_0000_0000,
        laid_out(pages, leaf_pages(e)),
    ensures
        held(pages, leaf_spans(e), key, value) <==> leaf_get(e, key) == Some(value),
{
    let n = e.len() as int;
    let spans = leaf_spans(e);
    if held(pages, spans, key, value) {
        let (id, j) = choose|id: u32, j: int| #[trigger] held_at(pages, spans, id, j, key, value);
        lemma_bulk_leaf(pages, e, id - 1);
        if n > 0 {
            lemma_chunks(n, id - 1);
        }
        assert(e[fill() * (id - 1) + j] == (key, value));
        lemma_leaf_get(e, fill() * (id - 1) + j);
    }
    if leaf_get(e, key) == Some(value) {
        lemma_leaf_found(e, key);
        let i = rank(e, key);
        let (k, j) = (i / fill(), i % fill());
        lemma_bulk_leaf(pages, e, k);
        lemma_chunks(n, k);
        assert(chunk(e, k)[j] == e[i]);
        assert(held_at(pages, spans, (k + 1) as u32, j, key, value));
    }
}

/// How long a row of level `level` can be.
pub open spec fn row_bound(level: int) -> int {
    if level == 1 {
        0x100_0000
    } else if level == 2 {
        0x1_0000
    } else if level == 3 {
        0x100
    } else {
        1
    }
}

proof fn lemma_row_bound(n: int, level: int)
    requires
        1 < n <= row_bound(level),
        1 <= level <= 4,
    ensures
        level < 4,
        chunk_total(n) <= row_bound(level + 1),
        1 <= chunk_total(n),
        2 * chunk_total(n) <= n,
{
}

/// A row of one page is a root.
proof fn lemma_single_root(
    pages: Pages,
    h: Header,
    spans: Spans,
    current: Seq<(u32, u32)>,
    level: int,
)
    requires
        forest(pages, spans, current, level - 1, h.next_page as int),
        1 <= level,
        current.len() == 1,
        level > 1 ==> entries_of(pages[current[0].1]).len() >= 2,
        h.first_leaf == 1,
        h.root == current[0].1,
        h.height == level,
        leaves(spans).finite(),
        leaves(spans).len() == h.leaf_cnt,
    ensures
        spans_ok(pages, h, spans),
{
    reveal(forest);
    assert(spans[current[0].1] == row_span(current, level - 1, 0));
    assert(row_span(current, level - 1, 0) =~= root_span(h));
}

/// The levels above a row make it a tree.
proof fn lemma_tower(
    pages: Pages,
    h: Header,
    spans: Spans,
    s: Seq<Seq<u8>>,
    current: Seq<(u32, u32)>,
    level: int,
) -> (spans2: Spans)
    requires
        forest(pages, spans, current, level - 1, s.len() as int + 1),
        1 <= level <= 4,
        1 <= current.len() <= row_bound(level),
        level > 1 && current.len() == 1 ==> entries_of(pages[current[0].1]).len() >= 2,
        s.len() + current.len() <= 0x300_0000,
        laid_out(pages, tower(s, current, level).0),
        h.first_leaf == 1,
        h.root == tower(s, current, level).1,
        h.height == tower(s, current, level).2,
        h.next_page == tower(s, current, level).0.len() + 1,
        leaves(spans).finite(),
        leaves(spans).len() == h.leaf_cnt,
    ensures
        spans_ok(pages, h, spans2),
        leaves(spans2) == leaves(spans),
        forall|id: u32| #[trigger] spans.contains_key(id) ==> spans2.contains_key(id) && spans2[id]
            == spans[id],
        level <= h.height <= 4,
        s.len() <= tower(s, current, level).0.len() <= s.len() + current.len(),
    decreases current.len(),
{
    if current.len() <= 1 {
        lemma_single_root(pages, h, spans, current, level);
        spans
    } else {
        let n = current.len() as int;
        let next = s.len() as int + 1;
        let more = node_pages(current, level);
        let s2 = s + more;
        let up = node_parents(current, next);
        lemma_row_bound(n, level);
        lemma_level_laid(pages, s, current, level);
        lemma_bulk_level(pages, spans, current, level, next);
        let mid = raised_spans(spans, current, level - 1, next);
        let spans2 = lemma_tower(pages, h, mid, s2, up, level + 1);
        assert forall|id: u32| #[trigger] spans.contains_key(id) implies spans2.contains_key(id)
            && spans2[id] == spans[id] by {
            assert(mid.contains_key(id) && mid[id] == spans[id]);
        }
        spans2
    }
}

/// The pages of the next level stand where they should.
proof fn lemma_level_laid(pages: Pages, s: Seq<Seq<u8>>, current: Seq<(u32, u32)>, level: int)
    requires
        current.len() > 1,
        laid_out(pages, tower(s, current, level).0),
    ensures
        level_laid(pages, current, level, s.len() as int + 1),
{
    let more = node_pages(current, level);
    let next = s.len() as int + 1;
    let s2 = s + more;
    let all = tower(s, current, level).0;
    lemma_tower_keeps(s2, node_parents(current, next), level + 1);
    assert forall|i: int| 0 <= i < chunk_total(current.len() as int) implies #[trigger] level_page(
        pages,
        current,
        level,
        next,
        i,
    ) by {
        assert(s2[s.len() + i] == more[i]);
        assert(all[s.len() + i] == s2[s.len() + i]);
        assert(stands(pages, s.len() + i + 1, all[s.len() + i]));
        assert(s.len() + i + 1 == next + i);
    }
}

/// Levels are added behind the pages that are there.
proof fn lemma_tower_keeps(s: Seq<Seq<u8>>, current: Seq<(u32, u32)>, level: int)
    ensures
        s.len() <= tower(s, current, level).0.len(),
        forall|i: int| 0 <= i < s.len() ==> #[trigger] tower(s, current, level).0[i] == s[i],
    decreases current.len(),
{
    if current.len() > 1 {
        let s2 = s + node_pages(current, level);
        lemma_chunks(current.len() as int, 0);
        lemma_tower_keeps(s2, node_parents(current, s.len() as int + 1), level + 1);
        assert forall|i: int| 0 <= i < s.len() implies #[trigger] tower(s, current, level).0[i]
            == s[i] by {
            assert(s2[i] == s[i]);
        }
    }
}

/// Keys that ascend are at least as large as their place.
pub proof fn lemma_ascending_len(e: Seq<(u32, u32)>, i: int)
    requires
        ascending(e),
        0 <= i < e.len(),
    ensures
        e[i].0 >= i,
    decreases i,
{
    if i > 0 {
        lemma_ascending_len(e, i - 1);
        assert(e[i - 1].0 < e[i].0);
    }
}

/// The map of the entries has as many keys as there are entries.
pub(crate) proof fn lemma_entry_map(e: Seq<(u32, u32)>)
    requires
        ascending(e),
    ensures
        entry_map(e).dom().finite(),
        entry_map(e).dom().len() == e.len(),
        forall|key: u32| #[trigger] entry_map(e).contains_key(key) ==> e[0].0 <= key <= e.last().0
            && e.len() > 0,
        e.len() > 0 ==> entry_map(e).contains_key(e[0].0) && entry_map(e).contains_key(e.last().0),
    decreases e.len(),
{
    let keys = Seq::new(e.len(), |i: int| e[i].0);
    assert(keys.no_duplicates()) by {
        assert forall|i: int, j: int| 0 <= i < keys.len() && 0 <= j < keys.len() && i
            != j implies keys[i] != keys[j] by {
            if i < j {
                assert(e[i].0 < e[j].0);
            } else {
                assert(e[j].0 < e[i].0);
            }
        }
    }
    keys.unique_seq_to_set();
    assert forall|key: u32| entry_map(e).dom().contains(key) <==> keys.to_set().contains(key) by {
        if entry_map(e).dom().contains(key) {
            lemma_leaf_found(e, key);
            assert(keys[rank(e, key)] == key);
        }
        if keys.to_set().contains(key) {
            let i = choose|i: int| 0 <= i < keys.len() && keys[i] == key;
            lemma_leaf_get(e, i);
        }
    }
    assert(entry_map(e).dom() =~= keys.to_set());
    assert(keys.to_set().finite()) by {
        broadcast use vstd::seq_lib::seq_to_set_is_finite;
    }
    assert forall|key: u32| #[trigger] entry_map(e).contains_key(key) implies e[0].0 <= key
        <= e.last().0 && e.len() > 0 by {
        lemma_leaf_found(e, key);
        let i = rank(e, key);
        if i > 0 {
            assert(e[0].0 < e[i].0);
        }
        if i < e.len() - 1 {
            assert(e[i].0 < e[e.len() - 1].0);
        }
    }
    if e.len() > 0 {
        lemma_leaf_get(e, 0);
        lemma_leaf_get(e, e.len() - 1);
    }
}

/// An index of so many leaves has no more levels than it needs: a level above the leaves for every
/// time that the fill of a page goes into them.
pub open spec fn least_height(height: int, leaves: int) -> bool {
    &&& height >= 1
    &&& leaves <= pow(fill(), (height - 1) as nat)
    &&& height > 1 ==> pow(fill(), (height - 2) as nat) < leaves
}

/// The levels above a row are as many as it takes to get from it to one page.
proof fn lemma_tower_least(s: Seq<Seq<u8>>, current: Seq<(u32, u32)>, level: int)
    requires
        current.len() >= 1,
    ensures
        least_height(tower(s, current, level).2 - level + 1, current.len() as int),
    decreases current.len(),
{
    let n = current.len() as int;
    reveal(pow);
    if n > 1 {
        let m = chunk_total(n);
        assert(fill() * (m - 1) < n <= fill() * m);
        let up = node_parents(current, s.len() as int + 1);
        let above = s + node_pages(current, level);
        lemma_tower_least(above, up, level + 1);
        let k = tower(s, current, level).2 - level;
        assert(tower(s, current, level) == tower(above, up, level + 1));
        assert(k >= 1);
        let p = pow(fill(), (k - 1) as nat);
        assert(pow(fill(), k as nat) == fill() * p);
        assert(n <= fill() * p);
        if k > 1 {
            let q = pow(fill(), (k - 2) as nat);
            assert(p == fill() * q);
            assert(q < m);
        }
    }
}

/// The pages that a bulk load lays out make up an index that holds what was loaded. It has the
/// least height for its leaves, which is at most four levels, and its key bounds are exact.
pub proof fn law_bulk_load(
    pages: Pages,
    e: Seq<(u32, u32)>,
    source_len: u64,
    source_frame_cnt: u32,
)
    requires
        ascending(e),
        laid_out(pages, bulk(e).0),
    ensures
        tree_ok(pages, bulk_header(e, source_len, source_frame_cnt)),
        contents(pages, bulk_header(e, source_len, source_frame_cnt)) == entry_map(e),
        bounds_exact(pages, bulk_header(e, source_len, source_frame_cnt)),
        1 <= bulk_header(e, source_len, source_frame_cnt).height <= 4,
        least_height(
            bulk_header(e, source_len, source_frame_cnt).height as int,
            leaf_total(e.len() as int),
        ),
        bulk_header(e, source_len, source_frame_cnt).leaf_cnt == leaf_total(e.len() as int),
        bulk_header(e, source_len, source_frame_cnt).entry_cnt == e.len(),
        bulk_header(e, source_len, source_frame_cnt).next_page <= 0x300_0000,
{
    let h = bulk_header(e, source_len, source_frame_cnt);
    let n = e.len() as int;
    if n > 0 {
        lemma_ascending_len(e, n - 1);
    }
    let s = leaf_pages(e);
    let row = leaf_parents(e);
    lemma_tower_keeps(s, row, 1);
    lemma_laid_prefix(pages, s, bulk(e).0);
    lemma_bulk_leaves(pages, e);
    lemma_tower_height(s, row, 1);
    lemma_tower_least(s, row, 1);
    let spans0 = leaf_spans(e);
    let spans = lemma_tower(pages, h, spans0, s, row, 1);
    assert forall|key: u32| #[trigger] get(pages, h, key) == leaf_get(e, key) by {
        lemma_get_held(pages, h, spans, key);
        if get(pages, h, key) is Some {
            let value = get(pages, h, key)->0;
            assert(held(pages, spans, key, value));
            lemma_held_same(pages, spans0, spans, key, value);
            lemma_bulk_held(pages, e, key, value);
        }
        if leaf_get(e, key) is Some {
            let value = leaf_get(e, key)->0;
            lemma_bulk_held(pages, e, key, value);
            lemma_held_same(pages, spans0, spans, key, value);
            assert(held(pages, spans, key, value));
        }
    }
    assert(contents(pages, h) =~= entry_map(e));
    lemma_entry_map(e);
}

/// The first pages of those that are laid out are laid out.
proof fn lemma_laid_prefix(pages: Pages, s: Seq<Seq<u8>>, all: Seq<Seq<u8>>)
    requires
        laid_out(pages, all),
        s.len() <= all.len(),
        forall|i: int| 0 <= i < s.len() ==> #[trigger] all[i] == s[i],
    ensures
        laid_out(pages, s),
{
    assert forall|i: int| 0 <= i < s.len() implies #[trigger] stands(pages, i + 1, s[i]) by {
        assert(all[i] == s[i]);
        assert(stands(pages, i + 1, all[i]));
    }
}

/// What the leaves hold does not depend on the levels above them.
proof fn lemma_held_same(pages: Pages, spans: Spans, spans2: Spans, key: u32, value: u32)
    requires
        leaves(spans2) == leaves(spans),
        forall|id: u32| #[trigger] spans.contains_key(id) ==> spans2.contains_key(id) && spans2[id]
            == spans[id],
    ensures
        held(pages, spans2, key, value) <==> held(pages, spans, key, value),
{
    if held(pages, spans, key, value) {
        let (id, i) = choose|id: u32, i: int| #[trigger] held_at(pages, spans, id, i, key, value);
        assert(held_at(pages, spans2, id, i, key, value));
    }
    if held(pages, spans2, key, value) {
        let (id, i) = choose|id: u32, i: int| #[trigger] held_at(pages, spans2, id, i, key, value);
        assert(leaves(spans2).contains(id));
        assert(leaves(spans).contains(id));
        assert(held_at(pages, spans, id, i, key, value));
    }
}

/// How high the levels above a row get, and how many pages they take.
pub proof fn lemma_tower_height(s: Seq<Seq<u8>>, current: Seq<(u32, u32)>, level: int)
    requires
        1 <= level <= 4,
        1 <= current.len() <= row_bound(level),
    ensures
        level <= tower(s, current, level).2 <= 4,
        s.len() <= tower(s, current, level).0.len() <= s.len() + current.len(),
    decreases current.len(),
{
    if current.len() > 1 {
        let n = current.len() as int;
        lemma_row_bound(n, level);
        lemma_tower_height(
            s + node_pages(current, level),
            node_parents(current, s.len() as int + 1),
            level + 1,
        );
    }
}

} // verus!
