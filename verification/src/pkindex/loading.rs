//! The bulk load as a whole, from the first push to the index that it leaves in the file.

use super::builder::{after_runs, law_push_keeps_disk, law_sent, with_run, Builder, PageRun};
use super::bulk::{bulk_header, entry_map, law_bulk_load, leaf_total, least_height, stands};
use super::header::{header_of, header_page, law_header_round_trip, Header};
use super::index::PkIndex;
use super::page::ascending;
use super::tree::{contents, get, leaf_get, lemma_leaf_found, lemma_leaf_get, tree_ok, Pages};
use crate::error::Error;
use vstd::prelude::*;

verus! {

/// A push, and what it handed out.
pub struct LoadCall {
    pub key: u32,
    pub value: u32,
    pub out: Result<Option<PageRun>, Error>,
}

/// The entries that the loader took, in the order of the pushes.
pub open spec fn entries_taken(calls: Seq<LoadCall>) -> Seq<(u32, u32)>
    decreases calls.len(),
{
    if calls.len() == 0 {
        Seq::empty()
    } else {
        let before = entries_taken(calls.drop_last());
        if calls.last().out is Ok {
            before.push((calls.last().key, calls.last().value))
        } else {
            before
        }
    }
}

/// A loader and its file before and after a push whose run was written.
pub open spec fn pushed(before: (Builder, Pages), call: LoadCall, after: (Builder, Pages)) -> bool {
    &&& before.0.takes(after.0, call.key, call.value, call.out)
    &&& after.1 == with_run(before.1, call.out)
}

/// A use of a loader: what it and its file go through from the first push to the last. Whatever was
/// in the file before does not matter.
pub open spec fn loaded(
    source_len: u64,
    source_frame_cnt: u32,
    states: Seq<(Builder, Pages)>,
    calls: Seq<LoadCall>,
) -> bool {
    &&& states.len() == calls.len() + 1
    &&& states[0].0.is_new(source_len, source_frame_cnt)
    &&& forall|i: int|
        0 <= i < calls.len() ==> pushed(states[i], #[trigger] calls[i], states[i + 1])
}

/// Whatever the pushes, the loader has what it took, and what went out is in the file.
proof fn lemma_loaded(
    source_len: u64,
    source_frame_cnt: u32,
    states: Seq<(Builder, Pages)>,
    calls: Seq<LoadCall>,
    k: int,
)
    requires
        loaded(source_len, source_frame_cnt, states, calls),
        0 <= k <= calls.len(),
    ensures
        states[k].0.wf(),
        states[k].0.source() == (source_len, source_frame_cnt),
        states[k].0.entries() == entries_taken(calls.take(k)),
        states[k].0.on_disk(states[k].1),
    decreases k,
{
    if k == 0 {
        assert(entries_taken(calls.take(0)) =~= Seq::empty());
    } else {
        lemma_loaded(source_len, source_frame_cnt, states, calls, k - 1);
        let now = calls.take(k);
        let call = calls[k - 1];
        assert(now.drop_last() =~= calls.take(k - 1));
        assert(now.last() == call);
        assert(pushed(states[k - 1], call, states[k]));
        law_push_keeps_disk(
            states[k - 1].0,
            states[k].0,
            call.key,
            call.value,
            call.out,
            states[k - 1].1,
        );
    }
}

/// Some entry has the key.
pub open spec fn has_key(e: Seq<(u32, u32)>, key: u32) -> bool {
    exists|i: int| 0 <= i < e.len() && (#[trigger] e[i]).0 == key
}

/// An index over the pages holds these entries and nothing else: lookups find them, and the header
/// counts them. It has no more levels than it needs.
pub open spec fn holds(pages: Pages, h: Header, e: Seq<(u32, u32)>) -> bool {
    &&& tree_ok(pages, h)
    &&& forall|i: int| 0 <= i < e.len() ==> get(pages, h, (#[trigger] e[i]).0) == Some(e[i].1)
    &&& forall|key: u32| !has_key(e, key) ==> #[trigger] get(pages, h, key) is None
    &&& h.entry_cnt == e.len()
    &&& h.leaf_cnt == leaf_total(e.len() as int)
    &&& least_height(h.height as int, h.leaf_cnt as int)
    &&& (h.min_key, h.max_key) == if e.len() == 0 {
        (0u32, 0u32)
    } else {
        (e[0].0, e.last().0)
    }
}

/// A load leaves an index of what was pushed. Pushes that were refused leave no trace. Once the
/// last runs are written, lookups find what was taken and nothing else; and page 0 is a clean
/// header of the file that is indexed, so the index can be opened again.
pub proof fn law_load(
    source_len: u64,
    source_frame_cnt: u32,
    states: Seq<(Builder, Pages)>,
    calls: Seq<LoadCall>,
    cache_pages: usize,
    index: PkIndex,
    runs: Seq<PageRun>,
)
    requires
        loaded(source_len, source_frame_cnt, states, calls),
        states.last().0.seals(cache_pages, index, runs),
    ensures
        ({
            let file = after_runs(states.last().1, runs);
            let e = entries_taken(calls);
            let h = index.head();
            &&& ascending(e)
            &&& index.is_new(h, cache_pages)
            &&& index.faithful(file)
            &&& index.pages(file) == file
            &&& holds(file, h, e)
            &&& stands(file, 0, header_page(h))
            &&& header_of(header_page(h)) == Ok::<Header, Error>(h)
            &&& h.clean
            &&& h.source_len == source_len
            &&& h.source_frame_cnt == source_frame_cnt
        }),
{
    let k = calls.len() as int;
    lemma_loaded(source_len, source_frame_cnt, states, calls, k);
    assert(calls.take(k) =~= calls);
    let b = states.last().0;
    let e = entries_taken(calls);
    let file = after_runs(states.last().1, runs);
    let h = bulk_header(e, source_len, source_frame_cnt);
    assert(b.on_disk(states.last().1));
    assert(index.head() == h);
    law_sent(b);
    law_bulk_load(file, e, source_len, source_frame_cnt);
    law_header_round_trip(h);
    assert(index.pages(file) =~= file);
    lemma_held_entries(file, h, e);
}

/// What the map of the entries says of lookups.
proof fn lemma_held_entries(pages: Pages, h: Header, e: Seq<(u32, u32)>)
    requires
        ascending(e),
        contents(pages, h) == entry_map(e),
    ensures
        forall|i: int| 0 <= i < e.len() ==> get(pages, h, (#[trigger] e[i]).0) == Some(e[i].1),
        forall|key: u32| !has_key(e, key) ==> #[trigger] get(pages, h, key) is None,
{
    assert forall|i: int| 0 <= i < e.len() implies get(pages, h, (#[trigger] e[i]).0) == Some(
        e[i].1,
    ) by {
        lemma_leaf_get(e, i);
        assert(entry_map(e).contains_key(e[i].0));
        assert(contents(pages, h).contains_key(e[i].0));
        assert(contents(pages, h)[e[i].0] == e[i].1);
    }
    assert forall|key: u32| !has_key(e, key) implies #[trigger] get(pages, h, key) is None by {
        if get(pages, h, key) is Some {
            assert(contents(pages, h).contains_key(key));
            assert(leaf_get(e, key) is Some);
            lemma_leaf_found(e, key);
        }
    }
}

} // verus!
