//! The bulk loader.
//!
//! Leaves stream out as they fill up, in runs of pages that go to the file in one write each.

use super::bulk::{
    bulk, bulk_header, bulk_leaf, chunk, chunk_total, fill, laid_out, leaf_pages, leaf_parents,
    leaf_total, lemma_ascending_len, lemma_tower_height, node_pages, node_parents, row_bound,
    stands, tower, BULK_FILL,
};
use super::header::{header_page, Header};
use super::index::PkIndex;
use super::page::{
    ascending, blank, fill_entries, init_page, lemma_blank, lemma_with_entries, set_next,
    with_entries, with_next, Page, MAGIC_LEAF, MAGIC_NODE, NO_PAGE, PAGE_LEN,
};
use super::tree::Pages;
use crate::error::Error;

use vstd::prelude::*;

verus! {

/// Pages of buffer during bulk load, so the build does one pwrite per 256 kB.
pub const WRITE_BATCH_PAGES: usize = 64;

/// Pages to write, one after the other, from the page with the id `first` on.
pub struct PageRun {
    pub first: u32,
    pub bytes: Vec<u8>,
}

/// Page `i` of those that `bytes` are made of.
pub open spec fn run_page(bytes: Seq<u8>, i: int) -> Seq<u8> {
    bytes.subrange(4096 * i, 4096 * (i + 1))
}

/// The pages that `bytes` are made of.
pub open spec fn run_pages(bytes: Seq<u8>) -> Seq<Seq<u8>> {
    Seq::new(bytes.len() / 4096, |i: int| run_page(bytes, i))
}

impl PageRun {
    /// The pages of the run.
    pub open spec fn pages(&self) -> Seq<Seq<u8>> {
        run_pages(self.bytes@)
    }
}

/// The file after a run of pages was written.
pub open spec fn after_run(disk: Pages, first: u32, pages: Seq<Seq<u8>>) -> Pages {
    Map::new(
        |id: u32| disk.contains_key(id) || first <= id < first + pages.len(),
        |id: u32|
            if first <= id < first + pages.len() {
                pages[id - first]
            } else {
                disk[id]
            },
    )
}

/// The file after the run of a push was written, if there is one.
pub open spec fn with_run(disk: Pages, out: Result<Option<PageRun>, Error>) -> Pages {
    match out {
        Ok(Some(run)) => after_run(disk, run.first, run.pages()),
        _ => disk,
    }
}

/// The file after several runs were written, in their order.
pub open spec fn after_runs(disk: Pages, runs: Seq<PageRun>) -> Pages
    decreases runs.len(),
{
    if runs.len() == 0 {
        disk
    } else {
        after_run(
            after_runs(disk, runs.drop_last()),
            runs.last().first,
            runs.last().pages(),
        )
    }
}

/// Batches sequentially allocated pages into one run per `WRITE_BATCH_PAGES`.
struct PageWriter {
    buf: Vec<u8>,
    base: u32,
    next: u32,
}

impl PageWriter {
    spec fn wf(&self) -> bool {
        &&& self.base <= self.next
        &&& self.next - self.base < 64
        &&& self.buf@.len() == 4096 * (self.next - self.base)
    }

    /// The pages in the buffer.
    spec fn pending(&self) -> Seq<Seq<u8>> {
        run_pages(self.buf@)
    }

    fn new(first: u32) -> (writer: PageWriter)
        ensures
            writer.wf(),
            writer.base == first,
            writer.next == first,
            writer.pending() == Seq::<Seq<u8>>::empty(),
    {
        let writer = PageWriter { buf: Vec::new(), base: first, next: first };
        assert(writer.pending() =~= Seq::<Seq<u8>>::empty());
        writer
    }

    /// Appends a page. Returns a run as soon as there are enough for one.
    fn append(&mut self, page: &Page) -> (out: Option<PageRun>)
        requires
            old(self).wf(),
            old(self).next < u32::MAX,
        ensures
            final(self).wf(),
            final(self).next == old(self).next + 1,
            out is Some <==> old(self).pending().len() + 1 == 64,
            match out {
                None => {
                    &&& final(self).base == old(self).base
                    &&& final(self).pending() == old(self).pending().push(page@)
                },
                Some(run) => {
                    &&& run.first == old(self).base
                    &&& run.pages() == old(self).pending().push(page@)
                    &&& run.bytes@.len() == 64 * 4096
                    &&& final(self).base == final(self).next
                    &&& final(self).pending() == Seq::<Seq<u8>>::empty()
                },
            },
    {
        assert(PAGE_LEN == 4096);
        self.next = self.next + 1;
        let ghost before = self.buf@;
        self.buf.extend_from_slice(page);
        assert(self.buf@ =~= before + page@);
        proof {
            let pages = run_pages(self.buf@);
            let was = run_pages(before);
            assert(pages.len() == was.len() + 1);
            assert forall|i: int| 0 <= i < was.len() implies pages[i] == #[trigger] was[i] by {
                assert(run_page(self.buf@, i) =~= run_page(before, i));
            }
            assert(run_page(self.buf@, was.len() as int) =~= page@);
            assert(pages =~= was.push(page@));
        }
        if self.buf.len() >= WRITE_BATCH_PAGES * PAGE_LEN {
            self.flush()
        } else {
            None
        }
    }

    /// Empties the buffer.
    fn flush(&mut self) -> (out: Option<PageRun>)
        requires
            old(self).base <= old(self).next,
            old(self).next - old(self).base <= 64,
            old(self).buf@.len() == 4096 * (old(self).next - old(self).base),
        ensures
            final(self).wf(),
            final(self).next == old(self).next,
            final(self).base == final(self).next,
            final(self).pending() == Seq::<Seq<u8>>::empty(),
            out is Some <==> old(self).pending().len() > 0,
            out is Some ==> out->0.first == old(self).base && out->0.pages() == old(
                self,
            ).pending() && out->0.bytes@.len() == 4096 * (old(self).next - old(self).base),
    {
        if self.buf.len() == 0 {
            assert(self.pending() =~= Seq::<Seq<u8>>::empty());
            return None;
        }
        let mut bytes: Vec<u8> = Vec::new();
        std::mem::swap(&mut bytes, &mut self.buf);
        let first: u32 = self.base;
        self.base = self.next;
        assert(self.pending() =~= Seq::<Seq<u8>>::empty());
        Some(PageRun { first, bytes })
    }
}

/// Leaf `i` as it goes out: linked to the page after it.
pub open spec fn raw_leaf(e: Seq<(u32, u32)>, i: int) -> Seq<u8> {
    bulk_leaf(e, i, (i + 2) as u32)
}

/// Bulk loader for a fresh index. Keys must arrive strictly ascending; see `extsort` for getting
/// them that way.
///
/// Leaves stream straight out, so the only thing held in memory is one separator per leaf:
/// `entries / BULK_FILL * 8` bytes, ~3.8 MB at 167M records.
pub struct Builder {
    pages: PageWriter,
    /// The entries of the leaf that is being filled.
    leaf: Vec<(u32, u32)>,
    /// The leaf that was last finished.
    last_leaf: Box<Page>,
    first_leaf: u32,
    leaf_cnt: u32,
    entry_cnt: u64,
    min_key: u32,
    max_key: u32,
    last_key: Option<u32>,
    /// `(separator, child_page)` for the level directly above the leaves.
    parents: Vec<(u32, u32)>,
    source_len: u64,
    source_frame_cnt: u32,
    /// All that was pushed.
    pushed: Ghost<Seq<(u32, u32)>>,
}

impl Builder {
    /// What was pushed so far.
    pub closed spec fn entries(&self) -> Seq<(u32, u32)> {
        self.pushed@
    }

    /// How many leaves went out in runs.
    pub closed spec fn sent(&self) -> int {
        self.pages.base - 1
    }

    /// How many leaves are finished.
    pub closed spec fn full(&self) -> int {
        self.leaf_cnt as int
    }

    /// The length and the frame count of the file that is indexed.
    pub closed spec fn source(&self) -> (u64, u32) {
        (self.source_len, self.source_frame_cnt)
    }

    /// The finished leaves that did not go out yet are in the buffer, the unfinished one is at
    /// hand, and the counters and separators are those of what was pushed.
    pub closed spec fn wf(&self) -> bool {
        let e = self.pushed@;
        let k = self.leaf_cnt as int;
        &&& self.leaves_ok(k)
        &&& self.leaf@.len() < fill()
        &&& e.len() == fill() * k + self.leaf@.len()
        &&& self.leaf@ == e.subrange(fill() * k, e.len() as int)
    }

    /// As `wf`, for `k` leaves that are finished, whatever is at hand.
    spec fn leaves_ok(&self, k: int) -> bool {
        let e = self.pushed@;
        &&& ascending(e)
        &&& e.len() <= 0x1_0000_0000
        &&& self.first_leaf == 1
        &&& self.leaf_cnt == k
        &&& k <= leaf_total(e.len() as int)
        &&& self.pages.wf()
        &&& 1 <= self.pages.base
        &&& self.pages.next == k + 1
        &&& forall|i: int|
            0 <= i < self.pages.pending().len() ==> #[trigger] self.pages.pending()[i] == raw_leaf(
                e,
                self.pages.base - 1 + i,
            )
        &&& k > 0 ==> self.last_leaf@ == raw_leaf(e, k - 1)
        &&& self.parents@ == leaf_parents(e).take(k)
        &&& self.entry_cnt == e.len()
        &&& self.min_key == if e.len() == 0 {
            0
        } else {
            e[0].0
        }
        &&& self.max_key == if e.len() == 0 {
            0
        } else {
            e.last().0
        }
        &&& self.last_key == if e.len() == 0 {
            None
        } else {
            Some(e.last().0)
        }
    }

    /// Nothing was pushed, and nothing went out.
    pub open spec fn is_new(&self, source_len: u64, source_frame_cnt: u32) -> bool {
        &&& self.wf()
        &&& self.entries() == Seq::<(u32, u32)>::empty()
        &&& self.sent() == 0
        &&& self.full() == 0
        &&& self.source() == (source_len, source_frame_cnt)
    }

    /// A loader that nothing was pushed to. Page 0 is the header, written last once the root is
    /// known.
    pub fn create(source_len: u64, source_frame_cnt: u32) -> (builder: Builder)
        ensures
            builder.is_new(source_len, source_frame_cnt),
    {
        let mut page: Page = [0u8;PAGE_LEN];
        init_page(&mut page, MAGIC_LEAF, 0);
        let builder = Builder {
            pages: PageWriter::new(1),
            leaf: Vec::new(),
            last_leaf: Box::new(page),
            first_leaf: 1,
            leaf_cnt: 0,
            entry_cnt: 0,
            min_key: 0,
            max_key: 0,
            last_key: None,
            parents: Vec::new(),
            source_len,
            source_frame_cnt,
            pushed: Ghost(Seq::empty()),
        };
        assert(builder.leaf@ =~= Seq::<(u32, u32)>::empty().subrange(0, 0));
        assert(builder.parents@ =~= leaf_parents(Seq::empty()).take(0));
        builder
    }

    /// Finishes the leaf at hand. Returns a run of leaves as soon as there are enough for one.
    fn flush_leaf(&mut self) -> (out: Option<PageRun>)
        requires
            old(self).leaves_ok(old(self).full()),
            old(self).full() < leaf_total(old(self).entries().len() as int),
            old(self).leaf@ == chunk(old(self).entries(), old(self).full()),
            old(self).leaf@.len() <= fill(),
        ensures
            final(self).leaves_ok(old(self).full() + 1),
            final(self).leaf@ == Seq::<(u32, u32)>::empty(),
            final(self).entries() == old(self).entries(),
            final(self).full() == old(self).full() + 1,
            final(self).source() == old(self).source(),
            out is Some <==> old(self).full() + 1 - old(self).sent() == 64,
            match out {
                None => final(self).sent() == old(self).sent(),
                Some(run) => {
                    &&& run.first == old(self).sent() + 1
                    &&& run.pages().len() == 64
                    &&& run.bytes@.len() == 64 * 4096
                    &&& forall|i: int|
                        0 <= i < 64 ==> #[trigger] run.pages()[i] == raw_leaf(
                            old(self).entries(),
                            old(self).sent() + i,
                        )
                    &&& final(self).sent() == old(self).sent() + 64
                },
            },
    {
        let ghost e = self.pushed@;
        let ghost k = self.leaf_cnt as int;
        let separator: u32 = if self.leaf.len() > 0 {
            self.leaf[0].0
        } else {
            0
        };
        let id: u32 = self.pages.next;
        let mut page: Page = [0u8;PAGE_LEN];
        init_page(&mut page, MAGIC_LEAF, 0);
        fill_entries(&mut page, &self.leaf[0..self.leaf.len()]);
        // Bulk-loaded leaves are contiguous, so the sibling is always the next page. The final
        // leaf is corrected in `finish`; splits maintain the links from then on.
        set_next(&mut page, id + 1);
        proof {
            assert(self.leaf@.subrange(0, self.leaf@.len() as int) =~= self.leaf@);
            assert(page@ == raw_leaf(e, k));
        }
        let out = self.pages.append(&page);
        self.parents.push((separator, id));
        self.leaf_cnt = self.leaf_cnt + 1;
        self.last_leaf = Box::new(page);
        self.leaf.clear();
        proof {
            assert(self.parents@ =~= leaf_parents(e).take(k + 1)) by {
                if fill() * k < e.len() {
                    assert(chunk(e, k)[0] == e[fill() * k]);
                }
            }
        }
        out
    }

    /// What a push does. A key that does not ascend is refused. A run has the next leaves that did
    /// not go out yet.
    pub open spec fn takes(
        self,
        after: Builder,
        key: u32,
        frame_idx: u32,
        out: Result<Option<PageRun>, Error>,
    ) -> bool {
        let e = self.entries();
        &&& after.wf()
        &&& after.source() == self.source()
        &&& if e.len() > 0 && key == e.last().0 {
            out == Err::<Option<PageRun>, Error>(Error::DuplicateKey { key }) && after == self
        } else if e.len() > 0 && key < e.last().0 {
            out == Err::<Option<PageRun>, Error>(Error::UnsortedKey { key, last: e.last().0 })
                && after == self
        } else {
            &&& out is Ok
            &&& after.entries() == e.push((key, frame_idx))
            &&& after.full() == after.entries().len() as int / fill()
            &&& match out->Ok_0 {
                None => after.sent() == self.sent(),
                Some(run) => {
                    &&& run.first > 0
                    &&& run.first == self.sent() + 1
                    &&& run.pages().len() == 64
                    &&& run.bytes@.len() == 64 * 4096
                    &&& forall|i: int|
                        0 <= i < 64 ==> #[trigger] run.pages()[i] == raw_leaf(
                            after.entries(),
                            self.sent() + i,
                        )
                    &&& after.sent() == self.sent() + 64
                },
            }
            &&& 0 <= after.sent() <= after.full() < after.sent() + 64
        }
    }

    /// Adds an entry. Returns a run of leaves as soon as there are enough for one.
    pub fn push(&mut self, key: u32, frame_idx: u32) -> (out: Result<Option<PageRun>, Error>)
        requires
            old(self).wf(),
        ensures
            old(self).takes(*final(self), key, frame_idx, out),
    {
        match self.last_key {
            None => {
                self.min_key = key;
            },
            Some(last) => {
                if key == last {
                    return Err(Error::DuplicateKey { key });
                }
                if key < last {
                    return Err(Error::UnsortedKey { key, last });
                }
            },
        }
        let ghost before = self.pushed@;
        let ghost e = before.push((key, frame_idx));
        let ghost k = self.leaf_cnt as int;
        proof {
            assert forall|i: int, j: int| 0 <= i < j < e.len() implies e[i].0 < e[j].0 by {
                if j < before.len() {
                    assert(before[i].0 < before[j].0);
                } else if i < before.len() - 1 {
                    assert(before[i].0 < before[before.len() - 1].0);
                }
            }
            lemma_ascending_len(e, e.len() - 1);
            assert forall|i: int| 0 <= i < k implies raw_leaf(e, i) == raw_leaf(before, i) by {
                assert(chunk(e, i) =~= chunk(before, i));
            }
            assert(leaf_parents(e).take(k) =~= leaf_parents(before).take(k));
        }
        self.last_key = Some(key);
        self.max_key = key;
        self.leaf.push((key, frame_idx));
        self.entry_cnt = self.entry_cnt + 1;
        self.pushed = Ghost(e);
        assert(self.leaf@ =~= e.subrange(fill() * k, e.len() as int));
        assert(BULK_FILL == 357);
        if self.leaf.len() == BULK_FILL {
            assert(self.leaf@ =~= chunk(e, k));
            let out = self.flush_leaf();
            assert(self.leaf@ =~= e.subrange(fill() * (k + 1), e.len() as int));
            return Ok(out);
        }
        Ok(None)
    }

    /// The leaves that went out stand where they belong.
    pub open spec fn on_disk(&self, disk: Pages) -> bool {
        forall|i: int|
            0 <= i < self.sent() ==> #[trigger] stands(disk, i + 1, raw_leaf(self.entries(), i))
    }

    /// What sealing the index comes to: the index, and the runs that complete the file if it has
    /// what went out before.
    pub open spec fn seals(self, cache_pages: usize, index: PkIndex, runs: Seq<PageRun>) -> bool {
        let h = bulk_header(self.entries(), self.source().0, self.source().1);
        &&& index.is_new(h, cache_pages)
        &&& header_last(runs, header_page(h))
        &&& within(runs, h.next_page as int)
        &&& forall|disk: Pages| #[trigger]
            self.on_disk(disk) ==> {
                let after = after_runs(disk, runs);
                &&& laid_out(after, bulk(self.entries()).0)
                &&& stands(after, 0, header_page(h))
            }
    }

    /// Seals the index. Returns it open for reading and writing, and what has to be written, in
    /// this order, and made durable before it is used. The header comes last: until it is written
    /// the file is no index.
    pub fn finish(self, cache_pages: usize) -> (done: (PkIndex, Vec<PageRun>))
        requires
            self.wf(),
        ensures
            self.seals(cache_pages, done.0, done.1@),
    {
        let ghost b = self;
        let ghost e = self.pushed@;
        let mut this = self;
        let mut runs: Vec<PageRun> = Vec::new();
        let ghost n = leaf_total(e.len() as int);
        proof {
            lemma_bulk_bounds(e);
        }
        // An empty index still gets a root, so lookups have a page to land on.
        let ghost mut all: Seq<Seq<u8>> = Seq::new(this.leaf_cnt as nat, |i: int| raw_leaf(e, i));
        assert(flowing(b, runs@, all, this.pages.base - 1)) by {
            assert forall|disk: Pages| #[trigger] b.on_disk(disk) implies laid_out(
                after_runs(disk, runs@),
                all.take(this.pages.base - 1),
            ) by {
                let gone = all.take(this.pages.base - 1);
                assert forall|i: int| 0 <= i < gone.len() implies #[trigger] stands(
                    after_runs(disk, runs@),
                    i + 1,
                    gone[i],
                ) by {
                    assert(stands(disk, i + 1, raw_leaf(b.entries(), i)));
                }
            }
        }
        assert(this.pages.pending() =~= all.subrange(this.pages.base - 1, all.len() as int));
        assert(behind_header(runs@));
        assert(within(runs@, all.len() as int + 1));
        if this.leaf.len() > 0 || this.entry_cnt == 0 {
            let ghost k = this.leaf_cnt as int;
            let ghost done = this.pages.base - 1;
            assert(this.leaf@ =~= chunk(e, k));
            let out = this.flush_leaf();
            proof {
                let grown = all.push(raw_leaf(e, k));
                lemma_flow_more(b, runs@, all, done, raw_leaf(e, k));
                if out is Some {
                    assert(out->0.pages() =~= grown.subrange(done, grown.len() as int));
                    lemma_flow_run(b, runs@, grown, done, out->0);
                }
                all = grown;
                assert(all =~= Seq::new(this.leaf_cnt as nat, |i: int| raw_leaf(e, i)));
            }
            assert(within(runs@, all.len() as int + 1));
            keep(&mut runs, out);
            assert(this.pages.pending() =~= all.subrange(this.pages.base - 1, all.len() as int));
        }
        assert(this.leaf_cnt == n);
        let ghost mut ideal: Seq<Seq<u8>> = leaf_pages(e);
        assert(this.parents@ =~= leaf_parents(e));
        assert(all =~= ideal.update(n - 1, raw_leaf(e, n - 1)));
        let mut level: u8 = 1;
        let mut current: Vec<(u32, u32)> = Vec::new();
        std::mem::swap(&mut current, &mut this.parents);
        let mut pages = this.pages;
        while current.len() > 1
            invariant
                pages.wf(),
                pages.next == all.len() + 1,
                pages.base >= 1,
                pages.pending() == all.subrange(pages.base - 1, all.len() as int),
                flowing(b, runs@, all, pages.base - 1),
                behind_header(runs@),
                within(runs@, all.len() as int + 1),
                all == ideal.update(n - 1, raw_leaf(e, n - 1)),
                1 <= n <= ideal.len(),
                ideal[n - 1] == bulk_leaf(e, n - 1, NO_PAGE),
                tower(ideal, current@, level as int) == bulk(e),
                1 <= level <= 4,
                1 <= current@.len() <= row_bound(level as int),
                ideal.len() + current@.len() <= 0x300_0000,
            decreases current@.len(),
        {
            assert(BULK_FILL == 357);
            let ghost whole = ideal + node_pages(current@, level as int);
            let ghost base = ideal;
            let ghost total = chunk_total(current@.len() as int);
            let mut up: Vec<(u32, u32)> = Vec::new();
            let mut at: usize = 0;
            proof {
                assert(up@ =~= node_parents(current@, base.len() as int + 1).take(0));
                assert(base + node_pages(current@, level as int).take(0) =~= base);
            }
            while at < current.len()
                invariant
                    BULK_FILL == 357,
                    current@.len() > 1,
                    at == current@.len() || at == fill() * up@.len(),
                    at <= current@.len(),
                    up@.len() <= total,
                    at == current@.len() <==> up@.len() == total,
                    total == chunk_total(current@.len() as int),
                    up@ == node_parents(current@, base.len() as int + 1).take(up@.len() as int),
                    ideal == base + node_pages(current@, level as int).take(up@.len() as int),
                    pages.wf(),
                    pages.next == all.len() + 1,
                    pages.base >= 1,
                    pages.pending() == all.subrange(pages.base - 1, all.len() as int),
                    flowing(b, runs@, all, pages.base - 1),
                    behind_header(runs@),
                    within(runs@, all.len() as int + 1),
                    all == ideal.update(n - 1, raw_leaf(e, n - 1)),
                    1 <= n <= base.len(),
                    base[n - 1] == bulk_leaf(e, n - 1, NO_PAGE),
                    1 <= level <= 4,
                    base.len() + current@.len() <= 0x300_0000,
                decreases current@.len() - at,
            {
                let ghost i = up@.len() as int;
                let ghost done = pages.base - 1;
                let end: usize = if current.len() - at > BULK_FILL {
                    at + BULK_FILL
                } else {
                    current.len()
                };
                let mut page: Page = [0u8;PAGE_LEN];
                init_page(&mut page, MAGIC_NODE, level);
                fill_entries(&mut page, &current[at..end]);
                proof {
                    assert(current@.subrange(at as int, end as int) =~= chunk(current@, i));
                    assert(page@ == node_pages(current@, level as int)[i]);
                }
                let id: u32 = pages.next;
                let out = pages.append(&page);
                proof {
                    let grown = all.push(page@);
                    lemma_flow_more(b, runs@, all, done, page@);
                    if out is Some {
                        assert(out->0.pages() =~= grown.subrange(done, grown.len() as int));
                        lemma_flow_run(b, runs@, grown, done, out->0);
                    }
                    all = grown;
                    ideal = ideal.push(page@);
                    assert(ideal =~= base + node_pages(current@, level as int).take(i + 1));
                    assert(all =~= ideal.update(n - 1, raw_leaf(e, n - 1)));
                    assert(pages.pending() =~= all.subrange(pages.base - 1, all.len() as int));
                }
                assert(within(runs@, all.len() as int + 1));
                keep(&mut runs, out);
                up.push((current[at].0, id));
                assert(up@ =~= node_parents(current@, base.len() as int + 1).take(i + 1));
                at = end;
            }
            proof {
                assert(node_pages(current@, level as int).take(total) =~= node_pages(
                    current@,
                    level as int,
                ));
                assert(up@ =~= node_parents(current@, base.len() as int + 1));
            }
            current = up;
            level = level + 1;
        }
        let header = Header {
            root: current[0].1,
            height: level as u32,
            first_leaf: this.first_leaf,
            next_page: pages.next,
            leaf_cnt: this.leaf_cnt,
            entry_cnt: this.entry_cnt,
            min_key: this.min_key,
            max_key: this.max_key,
            source_len: this.source_len,
            source_frame_cnt: this.source_frame_cnt,
            clean: true,
        };
        let ghost done = pages.base - 1;
        let out = pages.flush();
        proof {
            if out is Some {
                lemma_flow_run(b, runs@, all, done, out->0);
            }
            assert(all.subrange(done, all.len() as int).len() == all.len() - done);
        }
        keep(&mut runs, out);
        // The rightmost leaf has no sibling, but `flush_leaf` cannot know which leaf is last.
        let mut page: Page = *this.last_leaf;
        set_next(&mut page, NO_PAGE);
        proof {
            lemma_blank(MAGIC_LEAF, 0);
            lemma_with_entries(blank(MAGIC_LEAF, 0), chunk(e, n - 1));
            lemma_next_twice(
                with_entries(blank(MAGIC_LEAF, 0), chunk(e, n - 1)),
                (n + 1) as u32,
                NO_PAGE,
            );
            assert(page@ == ideal[n - 1]);
        }
        let last = page_run(this.first_leaf + (this.leaf_cnt - 1), &page);
        let head = page_run(0, &header.encode());
        proof {
            lemma_sealed(b, runs@, all, ideal, n - 1, last, head);
        }
        let ghost bare = runs@;
        runs.push(last);
        runs.push(head);
        proof {
            assert(runs@.drop_last() =~= bare.push(last));
        }
        (PkIndex::with_header(header, cache_pages), runs)
    }
}

/// Of the leaves that are finished, some went out. The keys ascend.
pub proof fn law_sent(b: Builder)
    requires
        b.wf(),
    ensures
        0 <= b.sent() <= b.full() == b.entries().len() as int / fill(),
        b.full() < b.sent() + 64,
        ascending(b.entries()),
{
}

/// A push whose run is written, if there is one, keeps the leaves that went out where they belong.
pub proof fn law_push_keeps_disk(
    b: Builder,
    after: Builder,
    key: u32,
    frame_idx: u32,
    out: Result<Option<PageRun>, Error>,
    disk: Pages,
)
    requires
        b.wf(),
        b.takes(after, key, frame_idx, out),
        b.on_disk(disk),
    ensures
        after.on_disk(with_run(disk, out)),
{
    if out is Ok {
        let e = b.entries();
        let e2 = after.entries();
        let disk2 = with_run(disk, out);
        assert(e2.len() <= 0x1_0000_0000);
        assert forall|i: int| 0 <= i < after.sent() implies #[trigger] stands(
            disk2,
            i + 1,
            raw_leaf(e2, i),
        ) by {
            assert(chunk(e2, i).len() == fill());
            if i < b.sent() {
                assert(chunk(e2, i) =~= chunk(e, i));
                assert(stands(disk, i + 1, raw_leaf(e, i)));
            } else {
                let run = (out->Ok_0)->0;
                assert(run.pages()[i - b.sent()] == raw_leaf(e2, b.sent() + (i - b.sent())));
            }
        }
    }
}

/// A run of one page.
fn page_run(id: u32, page: &Page) -> (run: PageRun)
    ensures
        run.first == id,
        run.pages() == seq![page@],
        run.bytes@.len() == 4096,
{
    let mut bytes: Vec<u8> = Vec::new();
    bytes.extend_from_slice(page);
    assert(bytes@ =~= page@);
    assert(run_page(bytes@, 0) =~= page@);
    assert(run_pages(bytes@) =~= seq![page@]);
    PageRun { first: id, bytes }
}

fn keep(runs: &mut Vec<PageRun>, out: Option<PageRun>)
    ensures
        behind_header(old(runs)@) && (out is Some ==> out->0.first > 0) ==> behind_header(
            final(runs)@,
        ),
        forall|end: int| #[trigger]
            within(old(runs)@, end) && (out is Some ==> fits_within(out->0, end)) ==> within(
                final(runs)@,
                end,
            ),
        final(runs)@ == match out {
            Some(run) => old(runs)@.push(run),
            None => old(runs)@,
        },
{
    if let Some(run) = out {
        runs.push(run);
    }
}

/// No run touches page 0.
pub open spec fn behind_header(runs: Seq<PageRun>) -> bool {
    forall|i: int| 0 <= i < runs.len() ==> (#[trigger] runs[i]).first > 0
}

/// A run is made of whole pages, none of which stands at `end` or behind.
pub open spec fn fits_within(run: PageRun, end: int) -> bool {
    &&& run.bytes@.len() % 4096 == 0
    &&& run.first + run.bytes@.len() as int / 4096 <= end
}

/// The runs touch no page from `end` on.
pub open spec fn within(runs: Seq<PageRun>, end: int) -> bool {
    forall|i: int| 0 <= i < runs.len() ==> fits_within(#[trigger] runs[i], end)
}

/// The header is written by the last run, and by no other.
pub open spec fn header_last(runs: Seq<PageRun>, header: Seq<u8>) -> bool {
    &&& runs.len() > 0
    &&& runs.last().first == 0
    &&& runs.last().pages() == seq![header]
    &&& behind_header(runs.drop_last())
}

/// Whatever the file was, as long as it had what went out before, the runs put the first `done`
/// of the pages `all` where they belong.
spec fn flowing(b: Builder, runs: Seq<PageRun>, all: Seq<Seq<u8>>, done: int) -> bool {
    forall|disk: Pages| #[trigger]
        b.on_disk(disk) ==> laid_out(after_runs(disk, runs), all.take(done))
}

proof fn lemma_flow_more(b: Builder, runs: Seq<PageRun>, all: Seq<Seq<u8>>, done: int, page: Seq<u8>)
    requires
        flowing(b, runs, all, done),
        0 <= done <= all.len(),
    ensures
        flowing(b, runs, all.push(page), done),
{
    assert(all.push(page).take(done) =~= all.take(done));
}

proof fn lemma_flow_run(
    b: Builder,
    runs: Seq<PageRun>,
    all: Seq<Seq<u8>>,
    done: int,
    run: PageRun,
)
    requires
        flowing(b, runs, all, done),
        0 <= done <= all.len(),
        all.len() < u32::MAX,
        run.first == done + 1,
        run.pages() == all.subrange(done, all.len() as int),
    ensures
        flowing(b, runs.push(run), all, all.len() as int),
{
    assert(runs.push(run).drop_last() =~= runs);
    assert forall|disk: Pages| #[trigger] b.on_disk(disk) implies laid_out(
        after_runs(disk, runs.push(run)),
        all.take(all.len() as int),
    ) by {
        let before = after_runs(disk, runs);
        let after = after_runs(disk, runs.push(run));
        assert(laid_out(before, all.take(done)));
        assert forall|i: int| 0 <= i < all.len() implies #[trigger] stands(
            after,
            i + 1,
            all.take(all.len() as int)[i],
        ) by {
            if i < done {
                assert(stands(before, i + 1, all.take(done)[i]));
            } else {
                assert(run.pages()[i - done] == all[i]);
            }
        }
    }
}

/// A sibling that is set twice is the one that was set last.
proof fn lemma_next_twice(p: Seq<u8>, a: u32, b: u32)
    requires
        p.len() == PAGE_LEN,
    ensures
        with_next(with_next(p, a), b) == with_next(p, b),
{
    reveal(with_next);
    assert(with_next(with_next(p, a), b) =~= with_next(p, b));
}

/// The last leaf corrected and the header written: the file is complete.
proof fn lemma_sealed(
    b: Builder,
    runs: Seq<PageRun>,
    all: Seq<Seq<u8>>,
    ideal: Seq<Seq<u8>>,
    at: int,
    last: PageRun,
    head: PageRun,
)
    requires
        flowing(b, runs, all, all.len() as int),
        0 <= at < all.len() < u32::MAX,
        all.len() == ideal.len(),
        forall|i: int| 0 <= i < all.len() && i != at ==> #[trigger] all[i] == ideal[i],
        last.first == at + 1,
        last.pages() == seq![ideal[at]],
        head.first == 0,
        head.pages().len() == 1,
    ensures
        forall|disk: Pages| #[trigger]
            b.on_disk(disk) ==> {
                let after = after_runs(disk, runs.push(last).push(head));
                &&& laid_out(after, ideal)
                &&& stands(after, 0, head.pages()[0])
            },
{
    assert(runs.push(last).push(head).drop_last() =~= runs.push(last));
    assert(runs.push(last).drop_last() =~= runs);
    assert forall|disk: Pages| #[trigger] b.on_disk(disk) implies {
        let after = after_runs(disk, runs.push(last).push(head));
        &&& laid_out(after, ideal)
        &&& stands(after, 0, head.pages()[0])
    } by {
        let before = after_runs(disk, runs);
        let after = after_runs(disk, runs.push(last).push(head));
        assert(all.take(all.len() as int) =~= all);
        assert(laid_out(before, all));
        assert forall|i: int| 0 <= i < ideal.len() implies #[trigger] stands(
            after,
            i + 1,
            ideal[i],
        ) by {
            let mid = after_runs(disk, runs.push(last));
            if i != at {
                assert(stands(before, i + 1, all[i]));
                assert(stands(mid, i + 1, ideal[i]));
            } else {
                assert(last.pages()[0] == ideal[at]);
                assert(stands(mid, i + 1, ideal[i]));
            }
        }
    }
}

/// How many pages a bulk load takes, and how high they stand.
proof fn lemma_bulk_bounds(e: Seq<(u32, u32)>)
    requires
        e.len() <= 0x1_0000_0000,
    ensures
        1 <= leaf_total(e.len() as int) <= row_bound(1),
        bulk(e).2 <= 4,
        leaf_pages(e).len() + leaf_parents(e).len() <= 0x300_0000,
{
    lemma_tower_height(leaf_pages(e), leaf_parents(e), 1);
}

} // verus!
