//! What the operations of an index come to, by the bytes of its pages and by what lookups find.

use super::pages::{law_header_layout, law_page_layout};
use crate::error::Error;
use crate::le::{le16, le32};
use crate::pkindex::builder::{after_run, after_runs, raw_leaf, with_run, Builder, PageRun};
use crate::pkindex::bulk::{chunk, leaf_total, least_height, stands};
use crate::pkindex::header::{header_of, header_page, Header};
use crate::pkindex::index::{told, Answer, Change, PkIndex, Progress, Request, Stage};
use crate::pkindex::laws::{law_remove, law_upsert, lemma_counters_bounded};
use crate::pkindex::limits::{law_height, law_page_cnt};
use crate::pkindex::loading::{entries_taken, has_key, law_load, pushed, LoadCall};
use crate::pkindex::ops::{grow, leaf_halves, opened, path_for, removed, upserted};
use crate::pkindex::page::{
    blank, entries_of, lemma_blank, lemma_with_entries, lemma_with_next, level_of, slot_of,
    with_entries, MAGIC_LEAF, MAGIC_NODE,
};
use crate::pkindex::tree::{
    allotted, contents, depth_of, get, held, held_at, leaf_for, lemma_get_held, node_ok, spans_ok,
    tree_ok, Pages, Spans,
};
use vstd::arithmetic::power::pow;
use vstd::math::{max, min};
use vstd::prelude::*;

verus! {

// -- lookups -----------------------------------------------------------------------------

/// Entry `i` of leaf `id` is `key` and `value`, by the bytes of the page.
pub open spec fn stored(pages: Pages, id: u32, i: int, key: u32, value: u32) -> bool {
    &&& pages.contains_key(id)
    &&& pages[id][1] == 0
    &&& 0 <= i < le16(pages[id], 2)
    &&& le32(pages[id], 8 + 8 * i) == key
    &&& le32(pages[id], 12 + 8 * i) == value
}

/// A lookup finds a value if and only if some leaf stores it for the key. So no key has two.
pub proof fn law_found(pages: Pages, h: Header, key: u32, value: u32)
    requires
        tree_ok(pages, h),
    ensures
        get(pages, h, key) == Some(value) <==> exists|id: u32, i: int|
            1 <= id < h.next_page && #[trigger] stored(pages, id, i, key, value),
{
    let spans = choose|spans: Spans| spans_ok(pages, h, spans);
    lemma_get_held(pages, h, spans, key);
    if get(pages, h, key) == Some(value) {
        assert(held(pages, spans, key, value));
        let (id, i) = choose|id: u32, i: int| #[trigger] held_at(pages, spans, id, i, key, value);
        assert(node_ok(pages, spans, id));
        law_page_layout(pages[id]);
        assert(stored(pages, id, i, key, value));
    }
    if exists|id: u32, i: int|
        1 <= id < h.next_page && #[trigger] stored(pages, id, i, key, value) {
        let (id, i) = choose|id: u32, i: int|
            1 <= id < h.next_page && #[trigger] stored(pages, id, i, key, value);
        reveal(allotted);
        assert(spans.contains_key(id));
        assert(node_ok(pages, spans, id));
        law_page_layout(pages[id]);
        assert(held_at(pages, spans, id, i, key, value));
        assert(held(pages, spans, key, value));
    }
}

/// The pages of an index are those in its pool, and those on disk for the others.
pub proof fn law_pages(index: PkIndex, disk: Pages, id: u32)
    ensures
        index.pages(disk).contains_key(id) <==> index.cached().contains_key(id)
            || disk.contains_key(id),
        index.cached().contains_key(id) ==> index.pages(disk)[id] == index.cached()[id],
        disk.contains_key(id) && !index.cached().contains_key(id) ==> index.pages(disk)[id]
            == disk[id],
{
}

/// A file is that of an index if every page of the pool that has not changed is in it as it is in
/// the pool.
pub proof fn law_faithful(index: PkIndex, disk: Pages)
    ensures
        index.faithful(disk) <==> forall|id: u32| #[trigger]
            index.cached().contains_key(id) && !index.dirty().contains(id) ==> disk.contains_key(id)
                && disk[id] == index.cached()[id],
{
}

// -- changes -----------------------------------------------------------------------------

/// A climb touches only what it has to of the header.
proof fn lemma_grow_header(
    pages: Pages,
    h: Header,
    path: Seq<(u32, usize)>,
    left_separator: u32,
    separator: u32,
    child: u32,
)
    ensures
        grow(pages, h, path, left_separator, separator, child) is Some ==> {
            let h2 = (grow(pages, h, path, left_separator, separator, child)->0).1;
            h2 == Header { root: h2.root, height: h2.height, next_page: h2.next_page, ..h }
        },
    decreases path.len(),
{
    if path.len() > 0 {
        let (node, slot) = path.last();
        let p = pages[node];
        let e = entries_of(p);
        let merged = e.insert(slot + 1, (separator, child));
        let mid = merged.len() as int / 2;
        let right = h.next_page;
        lemma_grow_header(
            pages.insert(node, with_entries(p, merged.take(mid))).insert(
                right,
                with_entries(blank(MAGIC_NODE, level_of(p)), merged.skip(mid)),
            ),
            Header { next_page: (h.next_page + 1) as u32, ..h },
            path.drop_last(),
            merged[0].0,
            merged[mid].0,
            right,
        );
    }
}

/// After an upsert a lookup of the key finds the value, and one of any other key what it found
/// before. The answer tells whether the key was not found before. Only then an entry is counted and
/// the bounds are widened to the key. The index is marked as open for writing.
pub proof fn law_upsert_found(pages: Pages, h: Header, key: u32, value: u32, other: u32)
    requires
        tree_ok(pages, h),
    ensures
        ({
            let outcome = told(upserted(pages, h, key, value), Change::Upsert { key, value });
            let (pages2, h2, answer) = outcome->0;
            let fresh = get(pages, h, key) is None;
            &&& outcome is Some
            &&& tree_ok(pages2, h2)
            &&& get(pages2, h2, key) == Some(value)
            &&& other != key ==> get(pages2, h2, other) == get(pages, h, other)
            &&& answer == Answer::Upserted(fresh)
            &&& !fresh ==> h2 == Header { clean: false, ..h }
            &&& fresh ==> h2.entry_cnt == h.entry_cnt + 1
            &&& fresh && h.entry_cnt == 0 ==> h2.min_key == key && h2.max_key == key
            &&& fresh && h.entry_cnt > 0 ==> {
                &&& h2.min_key == min(h.min_key as int, key as int)
                &&& h2.max_key == max(h.max_key as int, key as int)
            }
            &&& !h2.clean
            &&& h2.first_leaf == h.first_leaf
            &&& h2.source_len == h.source_len
            &&& h2.source_frame_cnt == h.source_frame_cnt
            &&& h.leaf_cnt <= h2.leaf_cnt <= h.leaf_cnt + 1
        }),
{
    law_upsert(pages, h, key, value);
    let (pages2, h2, fresh) = upserted(pages, h, key, value)->0;
    let before = contents(pages, h);
    let after = contents(pages2, h2);
    assert(after.contains_key(key) && after[key] == value);
    assert(before.contains_key(key) <==> get(pages, h, key) is Some);
    if other != key {
        assert(after.contains_key(other) <==> before.contains_key(other));
        if before.contains_key(other) {
            assert(after[other] == before[other]);
        }
    }
    lemma_upsert_header(pages, h, key, value);
}

proof fn lemma_upsert_header(pages: Pages, h: Header, key: u32, value: u32)
    requires
        tree_ok(pages, h),
        upserted(pages, h, key, value) is Some,
    ensures
        ({
            let (pages2, h2, fresh) = upserted(pages, h, key, value)->0;
            &&& fresh && h.entry_cnt == 0 ==> h2.min_key == key && h2.max_key == key
            &&& fresh && h.entry_cnt > 0 ==> {
                &&& h2.min_key == min(h.min_key as int, key as int)
                &&& h2.max_key == max(h.max_key as int, key as int)
            }
            &&& h2.first_leaf == h.first_leaf
            &&& h.leaf_cnt <= h2.leaf_cnt <= h.leaf_cnt + 1
        }),
{
    lemma_counters_bounded(pages, h);
    law_page_cnt(pages, h);
    let o = opened(h);
    let leaf = leaf_for(pages, h.root, depth_of(h), key);
    let path = path_for(pages, h.root, depth_of(h), key);
    let e = entries_of(pages[leaf]);
    if slot_of(e, key) is Err {
        let pos = slot_of(e, key)->Err_0;
        let m = e.insert(pos, (key, value));
        let mid = m.len() as int / 2;
        let right = o.next_page;
        lemma_grow_header(
            leaf_halves(pages, leaf, right, m),
            Header {
                next_page: (o.next_page + 1) as u32,
                leaf_cnt: (o.leaf_cnt + 1) as u32,
                ..o
            },
            path,
            m[0].0,
            m[mid].0,
            right,
        );
    }
}

/// After a removal a lookup of the key finds nothing, and one of any other key what it found before.
/// The answer tells whether the key was found before. Only then an entry is counted less. Nothing
/// else of the header changes but that the index is marked as open for writing.
pub proof fn law_remove_found(pages: Pages, h: Header, key: u32, other: u32)
    requires
        tree_ok(pages, h),
    ensures
        ({
            let outcome = told(removed(pages, h, key), Change::Remove { key });
            let (pages2, h2, answer) = outcome->0;
            let hit = get(pages, h, key) is Some;
            &&& outcome is Some
            &&& tree_ok(pages2, h2)
            &&& get(pages2, h2, key) is None
            &&& other != key ==> get(pages2, h2, other) == get(pages, h, other)
            &&& answer == Answer::Removed(hit)
            &&& h.entry_cnt == h2.entry_cnt + if hit {
                1int
            } else {
                0int
            }
            &&& h2 == Header { entry_cnt: h2.entry_cnt, clean: false, ..h }
        }),
{
    law_remove(pages, h, key);
    let (pages2, h2, hit) = removed(pages, h, key)->0;
    let before = contents(pages, h);
    let after = contents(pages2, h2);
    assert(!after.contains_key(key));
    assert(before.contains_key(key) <==> get(pages, h, key) is Some);
    assert(before.dom().contains(key) <==> before.contains_key(key));
    if hit && h.entry_cnt == 0 {
        assert(before.dom().len() == 0);
        assert(before.dom() =~= Set::empty());
    }
    if other != key {
        assert(after.contains_key(other) <==> before.contains_key(other));
        if before.contains_key(other) {
            assert(after[other] == before[other]);
        }
    }
}

/// An upsert is undone by a removal of a key that was not there, and a second upsert of one key
/// decides.
pub proof fn law_upsert_twice(pages: Pages, h: Header, key: u32, v: u32, w: u32, other: u32)
    requires
        tree_ok(pages, h),
    ensures
        ({
            let (pages1, h1, _) = upserted(pages, h, key, v)->0;
            let (pages2, h2, fresh) = upserted(pages1, h1, key, w)->0;
            let (pages3, h3, hit) = removed(pages1, h1, key)->0;
            &&& !fresh
            &&& get(pages2, h2, key) == Some(w)
            &&& h2 == h1
            &&& hit
            &&& get(pages3, h3, key) is None
            &&& other != key ==> get(pages2, h2, other) == get(pages, h, other)
            &&& other != key ==> get(pages3, h3, other) == get(pages, h, other)
            &&& get(pages, h, key) is None ==> h3.entry_cnt == h.entry_cnt
        }),
{
    law_upsert_found(pages, h, key, v, other);
    let (pages1, h1, _) = upserted(pages, h, key, v)->0;
    law_upsert_found(pages1, h1, key, w, other);
    law_remove_found(pages1, h1, key, other);
}

// -- steps -------------------------------------------------------------------------------

/// The last step of an operation tells what the operation was to come to, and leaves the pages and
/// the header that it was to leave.
pub proof fn law_step_done(index: PkIndex, after: PkIndex, answer: Answer, disk: Pages)
    requires
        index.stepped(after, Progress::Done(answer)),
        index.faithful(disk),
    ensures
        index.outcome(disk) is Some,
        (index.outcome(disk)->0).0 == after.pages(disk),
        (index.outcome(disk)->0).1 == after.head(),
        (index.outcome(disk)->0).2 == answer,
        after.faithful(disk),
        after.at() is Idle,
{
}

/// Every other step leaves what the operation will come to as it was, and what is asked of the disk
/// does too. Steps that do not ask for a tree page bring it closer.
pub proof fn law_step_on(index: PkIndex, after: PkIndex, progress: Progress, disk: Pages)
    requires
        index.stepped(after, progress),
        index.faithful(disk),
        progress is More || progress is Io,
    ensures
        after.faithful(disk),
        after.outcome(disk) == index.outcome(disk),
        progress is More ==> after.todo() < index.todo(),
        progress is Io && ((progress->Io_0) is Sync || (progress->Io_0) is WriteHeader)
            ==> after.todo() < index.todo(),
        after.stats() == index.stats(),
{
}

/// A step asks to read only what the pool does not have, and to write only a page of the pool that
/// changed, with the bytes that it has there.
pub proof fn law_step_asks(index: PkIndex, after: PkIndex, request: Request)
    requires
        index.stepped(after, Progress::Io(request)),
    ensures
        match request {
            Request::Read { id } => {
                &&& !index.cached().contains_key(id)
                &&& index.wanted() == Some(id)
                &&& after.has_room()
            },
            Request::Write { id, page } => {
                &&& index.cached().contains_key(id)
                &&& index.dirty().contains(id)
                &&& page@ == index.cached()[id]
            },
            Request::WriteHeader { page } => {
                &&& index.at() is Opening || index.at() is FlushHeader
                &&& index.at() is Opening ==> page@[64] == 0 && after.at() is Opened
                &&& index.at() is FlushHeader ==> page@[64] == 1 && after.at() is FlushSync
                &&& le32(page@, 16) == index.head().root
                &&& le32(page@, 28) == index.head().next_page
            },
            Request::Sync => {
                &&& index.at() is Opened || index.at() is Flush || index.at() is FlushSync
                &&& index.at() is Flush ==> forall|id: u32| !#[trigger] index.dirty().contains(id)
            },
        },
        after.cached() == index.cached(),
        after.dirty() == index.dirty(),
{
    if let Request::WriteHeader { page } = request {
        if index.at() is Opening {
            law_header_layout(opened(index.head()));
        } else {
            law_header_layout(after.head());
        }
    }
}

/// A step of a lookup changes no page, marks none as changed, and leaves the header as it is.
pub proof fn law_lookup_only_looks(index: PkIndex, after: PkIndex, progress: Progress, disk: Pages)
    requires
        index.stepped(after, progress),
        index.at() is Lookup,
    ensures
        after.cached() == index.cached(),
        after.dirty() == index.dirty(),
        after.head() == index.head(),
        after.pages(disk) == index.pages(disk),
{
}

/// A change of an index that is marked clean begins with page 0: the mark is taken off there, and
/// that is made durable, before any page changes.
pub proof fn law_mark_first(index: PkIndex, after: PkIndex, progress: Progress)
    requires
        index.stepped(after, progress),
        match index.at() {
            Stage::Opening { .. } | Stage::Opened { .. } => true,
            _ => false,
        },
    ensures
        index.at() is Opening ==> progress is Io && (progress->Io_0) is WriteHeader,
        index.at() is Opened ==> progress is Io && (progress->Io_0) is Sync,
        after.cached() == index.cached(),
        after.dirty() == index.dirty(),
        after.head() == index.head(),
{
}

/// A flush writes every page that changed, makes that durable, and only then writes page 0 with the
/// mark, which it makes durable too before it is done.
pub proof fn law_flush_order(index: PkIndex, after: PkIndex, progress: Progress)
    requires
        index.stepped(after, progress),
    ensures
        index.at() is Flush ==> match progress {
            Progress::Io(Request::Write { id, .. }) => index.dirty().contains(id) && after.at()
                is Flush,
            Progress::Io(Request::Sync) => index.dirty() =~= Set::<u32>::empty() && after.at()
                is FlushHeader,
            _ => false,
        },
        index.at() is FlushHeader ==> match progress {
            Progress::Io(Request::WriteHeader { page }) => {
                &&& page@ == header_page(Header { clean: true, ..index.head() })
                &&& after.at() is FlushSync
            },
            _ => false,
        },
        index.at() is FlushSync ==> match progress {
            Progress::Io(Request::Sync) => after.at() is FlushEnd,
            _ => false,
        },
{
}

/// What a step does to the pool. A page that is there is marked as used. For one that is not, room is
/// made, and where that takes a page that changed, it is that page which has to be written first. One
/// that is new comes in at once.
pub proof fn law_step_clock(index: PkIndex, after: PkIndex, progress: Progress)
    requires
        index.stepped(after, progress),
    ensures
        ({
            let room = index.clock().with_room(index.cache_limit());
            match progress {
                Progress::Io(Request::Read { .. }) => after.clock() == room,
                Progress::Io(Request::Write { id, .. }) => if index.at() is Flush {
                    after.clock() == index.clock()
                } else {
                    after.clock() == room && id == room.ids[room.hand]
                },
                Progress::More | Progress::Done(_) => match index.wanted() {
                    Some(id) => after.clock() == if index.cached().contains_key(id) {
                        index.clock().touched(id)
                    } else {
                        room.entered(id, index.cache_limit())
                    },
                    None => after.clock() == index.clock(),
                },
                _ => true,
            }
        }),
        after.cache_limit() == index.cache_limit(),
{
}

// -- loading -----------------------------------------------------------------------------

/// A load takes a key if it is above the last that it took, whatever came between. One that is the
/// same or below is refused for that and leaves everything as it was.
pub proof fn law_push(
    b: Builder,
    after: Builder,
    key: u32,
    value: u32,
    out: Result<Option<PageRun>, Error>,
)
    requires
        b.takes(after, key, value, out),
    ensures
        b.entries().len() == 0 || key > b.entries().last().0 ==> out is Ok && after.entries()
            == b.entries().push((key, value)),
        b.entries().len() > 0 && key == b.entries().last().0 ==> after == b && out == Err::<
            Option<PageRun>,
            Error,
        >(Error::DuplicateKey { key }),
        b.entries().len() > 0 && key < b.entries().last().0 ==> after == b && out == Err::<
            Option<PageRun>,
            Error,
        >(Error::UnsortedKey { key, last: b.entries().last().0 }),
        after.source() == b.source(),
{
}

/// A run that a push hands out has 64 leaves of 357 entries each: those that come next, each linked
/// to the page behind it. It starts behind page 0 and the leaves that went out before.
pub proof fn law_run(b: Builder, after: Builder, key: u32, value: u32, run: PageRun, i: int)
    requires
        b.takes(after, key, value, Ok(Some(run))),
        0 <= i < 64,
        0 <= b.sent(),
    ensures
        ({
            let k = b.sent() + i;
            let p = run.pages()[i];
            &&& run.first == b.sent() + 1
            &&& run.pages().len() == 64
            &&& run.bytes@.len() == 64 * 4096
            &&& p == run.bytes@.subrange(4096 * i, 4096 * (i + 1))
            &&& entries_of(p) == after.entries().subrange(357 * k, 357 * (k + 1))
            &&& p[0] == 0x4c
            &&& p[1] == 0
            &&& le32(p, 4) == (k + 2) as u32
        }),
{
    let e = after.entries();
    let k = b.sent() + i;
    assert(run.pages()[i] == raw_leaf(e, b.sent() + i));
    assert(k < e.len() as int / 357);
    let c = chunk(e, k);
    assert(c =~= e.subrange(357 * k, 357 * (k + 1)));
    lemma_blank(MAGIC_LEAF, 0);
    lemma_with_entries(blank(MAGIC_LEAF, 0), c);
    lemma_with_next(with_entries(blank(MAGIC_LEAF, 0), c), (k + 2) as u32);
}

/// A file after a run was written: the pages of the run stand from its first id on, and every other
/// page is as it was.
pub proof fn law_run_written(disk: Pages, first: u32, pages: Seq<Seq<u8>>, id: u32)
    ensures
        ({
            let after = after_run(disk, first, pages);
            &&& first <= id < first + pages.len() ==> after.contains_key(id) && after[id]
                == pages[id - first]
            &&& !(first <= id < first + pages.len()) ==> (after.contains_key(id)
                <==> disk.contains_key(id))
            &&& !(first <= id < first + pages.len()) && disk.contains_key(id) ==> after[id]
                == disk[id]
        }),
{
}

/// The header of a load is written last: page 0 is the whole of the last run, and no run before it
/// begins there. All runs are whole pages and stay within those that the header counts.
pub proof fn law_header_last(b: Builder, cache_pages: usize, index: PkIndex, runs: Seq<PageRun>)
    requires
        b.seals(cache_pages, index, runs),
    ensures
        runs.len() > 0,
        runs.last().first == 0,
        runs.last().bytes@ == header_page(index.head()),
        forall|i: int| 0 <= i < runs.len() - 1 ==> (#[trigger] runs[i]).first > 0,
        forall|i: int|
            0 <= i < runs.len() ==> {
                &&& (#[trigger] runs[i]).bytes@.len() % 4096 == 0
                &&& runs[i].first + runs[i].bytes@.len() as int / 4096 <= index.head().next_page
            },
{
    let last = runs.last();
    assert(last == runs[runs.len() - 1]);
    assert(last.pages().len() == 1 && last.pages()[0] == header_page(index.head()));
    assert(last.bytes@.len() == 4096);
    assert(last.bytes@ =~= last.pages()[0]);
    assert forall|i: int| 0 <= i < runs.len() - 1 implies (#[trigger] runs[i]).first > 0 by {
        assert(runs.drop_last()[i] == runs[i]);
    }
}

/// What was pushed and not refused, in that order.
pub open spec fn accepted(calls: Seq<LoadCall>) -> Seq<(u32, u32)> {
    calls.filter(|c: LoadCall| c.out is Ok).map_values(|c: LoadCall| (c.key, c.value))
}

proof fn lemma_accepted(calls: Seq<LoadCall>)
    ensures
        entries_taken(calls) == accepted(calls),
    decreases calls.len(),
{
    reveal(Seq::filter);
    let ok = |c: LoadCall| c.out is Ok;
    let pair = |c: LoadCall| (c.key, c.value);
    if calls.len() > 0 {
        let front = calls.drop_last();
        lemma_accepted(front);
        assert(front.filter(ok).push(calls.last()).map_values(pair) =~= front.filter(
            ok,
        ).map_values(pair).push((calls.last().key, calls.last().value)));
    }
    assert(entries_taken(calls) =~= accepted(calls));
}

/// How many leaves a load makes: one for each 357 entries and one for what is left, and at least
/// one.
pub proof fn law_leaf_total(n: int)
    requires
        0 <= n,
    ensures
        n == 0 ==> leaf_total(n) == 1,
        n > 0 ==> 357 * (leaf_total(n) - 1) < n <= 357 * leaf_total(n),
{
}

/// How high a load makes the tree: no higher than pages of 357 children need.
pub proof fn law_least_height(height: int, leaves: int)
    requires
        least_height(height, leaves),
        1 <= leaves,
        height <= 4,
    ensures
        height == 1 <==> leaves == 1,
        height == 2 <==> 1 < leaves <= 357,
        height == 3 <==> 357 < leaves <= 127449,
        height == 4 <==> 127449 < leaves,
{
    reveal(pow);
    assert(pow(357, 0) == 1);
    assert(pow(357, 1) == 357 * pow(357, 0));
    assert(pow(357, 2) == 357 * pow(357, 1));
    assert(pow(357, 3) == 357 * pow(357, 2));
}

/// A load from its first push to its last run. Afterwards lookups find what was pushed and not
/// refused, and nothing else; the keys of that ascend. The header counts it and has its bounds, and
/// it stands in page 0, marked clean, for the file that was indexed.
pub proof fn law_load_found(
    source_len: u64,
    source_frame_cnt: u32,
    states: Seq<(Builder, Pages)>,
    calls: Seq<LoadCall>,
    cache_pages: usize,
    index: PkIndex,
    runs: Seq<PageRun>,
    key: u32,
)
    requires
        states.len() == calls.len() + 1,
        states[0].0.is_new(source_len, source_frame_cnt),
        forall|i: int, j: int|
            #![trigger states[i], states[j]]
            0 <= i < calls.len() && j == i + 1 ==> states[i].0.takes(
                states[j].0,
                calls[i].key,
                calls[i].value,
                calls[i].out,
            ) && states[j].1 == with_run(states[i].1, calls[i].out),
        states.last().0.seals(cache_pages, index, runs),
    ensures
        ({
            let file = after_runs(states.last().1, runs);
            let e = accepted(calls);
            let h = index.head();
            &&& tree_ok(file, h)
            &&& forall|i: int, j: int|
                0 <= i < j < e.len() ==> (#[trigger] e[i]).0 < (#[trigger] e[j]).0
            &&& forall|i: int|
                0 <= i < e.len() ==> get(file, h, (#[trigger] e[i]).0) == Some(e[i].1)
            &&& (forall|i: int| 0 <= i < e.len() ==> (#[trigger] e[i]).0 != key) ==> get(
                file,
                h,
                key,
            ) is None
            &&& h.entry_cnt == e.len()
            &&& e.len() == 0 ==> h.leaf_cnt == 1 && h.min_key == 0 && h.max_key == 0
            &&& e.len() > 0 ==> {
                &&& 357 * (h.leaf_cnt - 1) < e.len() <= 357 * h.leaf_cnt
                &&& h.min_key == e[0].0
                &&& h.max_key == e.last().0
            }
            &&& h.height == if h.leaf_cnt == 1 {
                1int
            } else if h.leaf_cnt <= 357 {
                2
            } else if h.leaf_cnt <= 127449 {
                3
            } else {
                4
            }
            &&& h.clean
            &&& h.source_len == source_len
            &&& h.source_frame_cnt == source_frame_cnt
            &&& file.contains_key(0)
            &&& header_of(file[0]) == Ok::<Header, Error>(h)
        }),
{
    assert forall|i: int| 0 <= i < calls.len() implies pushed(
        states[i],
        #[trigger] calls[i],
        states[i + 1],
    ) by {
        let j = i + 1;
        assert(states[i].0.takes(states[j].0, calls[i].key, calls[i].value, calls[i].out));
    }
    law_load(source_len, source_frame_cnt, states, calls, cache_pages, index, runs);
    lemma_accepted(calls);
    let e = entries_taken(calls);
    let file = after_runs(states.last().1, runs);
    let h = index.head();
    if forall|i: int| 0 <= i < e.len() ==> (#[trigger] e[i]).0 != key {
        assert(!has_key(e, key));
    }
    assert(stands(file, 0, header_page(h)));
    law_leaf_total(e.len() as int);
    law_height(file, h);
    law_least_height(h.height as int, h.leaf_cnt as int);
}

} // verus!
