//! The index itself: lookups, upserts, removals and flushes over pooled pages.
//!
//! An operation is started by its own function and then driven by `step`, which works on one
//! page at a time. Where a page has to be read or written, or the file synced, `step` asks for
//! it and goes on from there at the next call.

use super::header::{header_of, header_page, law_header_round_trip, Header};
use super::laws::lemma_counters_bounded;
use super::limits::{law_height, law_page_cnt};
use super::ops::{
    counted, grow, inserted, leaf_halves, opened, path_for, remove_leaf, removed, split_leaf,
    upsert_leaf, upserted,
};
use super::page::{
    blank, child_at, count_of, descend_slot, entries_of, fill_entries, get_count, get_key,
    get_level, get_next, get_value, init_page, insert_at, leaf_slot, lemma_blank, lemma_entries_len,
    lemma_with_entries, lemma_with_next, lemma_with_value, next_of, page_at, page_fits, remove_at,
    set_next, set_value, slot_of, with_entries, with_next, Page, MAGIC_LEAF, MAGIC_NODE,
    MAX_ENTRIES, PAGE_LEN,
};
use super::pool::{
    clean_pages_match, lemma_changed, lemma_written, overlaid, Access, Clock, Pool,
};
use super::tree::{depth_of, get, leaf_for, leaf_get, tree_ok, Pages};
use crate::error::Error;
use vstd::prelude::*;

verus! {

/// Ceiling on tree height. A split always halves a full node, so no node below the root ever
/// drops under `MAX_ENTRIES / 2` children and the real height cannot pass 5 for a u32 key space.
/// 16 is slack, not a design limit.
pub const MAX_HEIGHT: usize = 16;

/// Tree pages held in the buffer pool by default: 16 MiB. Every interior level of a tree with
/// 167M entries fits in well under a thousand pages, so the default keeps all of them resident
/// and only the leaf read of a lookup can miss.
pub const DEFAULT_CACHE_PAGES: usize = 4096;

/// What the index needs done before it can go on.
pub enum Request {
    /// Read this tree page and hand it to `supply`.
    Read { id: u32 },
    /// Write this tree page and tell `written`.
    Write { id: u32, page: Box<Page> },
    /// Write page 0.
    WriteHeader { page: Box<Page> },
    /// Make everything written so far durable.
    Sync,
}

/// What an operation came to.
#[derive(Debug, Clone, Copy, PartialEq, Eq, Structural)]
pub enum Answer {
    /// The frame that holds the key, if the key is there.
    Found(Option<u32>),
    /// Whether the key is new.
    Upserted(bool),
    /// Whether the key was there.
    Removed(bool),
    /// The index is durable and marked clean.
    Flushed,
}

/// How far a step brought the running operation.
pub enum Progress {
    /// One page further.
    More,
    /// Nowhere before this is done.
    Io(Request),
    /// To its end.
    Done(Answer),
    /// To a page or a counter that contradicts what the operation was told before.
    Damaged,
    /// No operation is running.
    Idle,
}

/// A change to one key.
#[derive(Clone, Copy)]
pub enum Change {
    Upsert { key: u32, value: u32 },
    Remove { key: u32 },
}

impl Change {
    pub open spec fn spec_key(self) -> u32 {
        match self {
            Change::Upsert { key, .. } => key,
            Change::Remove { key } => key,
        }
    }

    fn key(self) -> (key: u32)
        ensures
            key == self.spec_key(),
    {
        match self {
            Change::Upsert { key, .. } => key,
            Change::Remove { key } => key,
        }
    }
}

/// Where the running operation stands.
pub enum Stage {
    Idle,
    /// On page `id`, `left` levels above the leaves.
    Lookup { key: u32, id: u32, left: u32 },
    /// Before the clean flag is cleared on disk.
    Opening { change: Change },
    /// Before that is made durable.
    Opened { change: Change },
    /// Once it is durable.
    Cleared { change: Change },
    /// On page `id`, `left` levels above the leaves.
    Descend { change: Change, id: u32, left: u32 },
    /// Before the right half of a split page gets into the pool.
    Right {
        key: u32,
        leaf: bool,
        right: u32,
        page: Box<Page>,
        left_separator: u32,
        separator: u32,
    },
    /// Before a new child gets into its parent, the last of the path.
    Parent { key: u32, left_separator: u32, separator: u32, child: u32 },
    /// Writing the changed pages.
    Flush,
    /// Before the header goes out, marked clean.
    FlushHeader,
    /// Before that is made durable.
    FlushSync,
    FlushEnd,
}

impl Stage {
    /// On its way through the tree.
    pub open spec fn travels(self) -> bool {
        match self {
            Stage::Lookup { .. }
            | Stage::Descend { .. }
            | Stage::Right { .. }
            | Stage::Parent { .. } => true,
            _ => false,
        }
    }
}

/// An outcome with its answer.
pub open spec fn told(outcome: Option<(Pages, Header, bool)>, change: Change) -> Option<
    (Pages, Header, Answer),
> {
    match outcome {
        Some((pages, h, b)) => Some(
            (
                pages,
                h,
                match change {
                    Change::Upsert { .. } => Answer::Upserted(b),
                    Change::Remove { .. } => Answer::Removed(b),
                },
            ),
        ),
        None => None,
    }
}

/// The index after a change: its pages, its header and the answer. `None` if the index
/// contradicts itself.
pub open spec fn changed(pages: Pages, h: Header, change: Change) -> Option<
    (Pages, Header, Answer),
> {
    match change {
        Change::Upsert { key, value } => told(upserted(pages, h, key, value), change),
        Change::Remove { key } => told(removed(pages, h, key), change),
    }
}

/// What an operation that stands at `stage` will come to over these pages and this header.
pub open spec fn rest(stage: Stage, path: Seq<(u32, usize)>, h: Header, pages: Pages) -> Option<
    (Pages, Header, Answer),
> {
    match stage {
        Stage::Idle => None,
        Stage::Lookup { key, id, left } => Some(
            (
                pages,
                h,
                Answer::Found(
                    leaf_get(entries_of(pages[leaf_for(pages, id, left as nat, key)]), key),
                ),
            ),
        ),
        Stage::Opening { change } => changed(pages, h, change),
        Stage::Opened { change } => changed(pages, h, change),
        Stage::Cleared { change } => changed(pages, h, change),
        Stage::Descend { change, id, left } => {
            let key = change.spec_key();
            let leaf = leaf_for(pages, id, left as nat, key);
            match change {
                Change::Upsert { key, value } => told(
                    upsert_leaf(
                        pages,
                        h,
                        leaf,
                        path + path_for(pages, id, left as nat, key),
                        key,
                        value,
                    ),
                    change,
                ),
                Change::Remove { key } => told(remove_leaf(pages, h, leaf, key), change),
            }
        },
        Stage::Right { key, leaf, right, page, left_separator, separator } => {
            let h2 = if leaf {
                Header { leaf_cnt: (h.leaf_cnt + 1) as u32, ..h }
            } else {
                h
            };
            told(
                inserted(
                    grow(pages.insert(right, page@), h2, path, left_separator, separator, right),
                    key,
                ),
                Change::Upsert { key, value: 0 },
            )
        },
        Stage::Parent { key, left_separator, separator, child } => told(
            inserted(grow(pages, h, path, left_separator, separator, child), key),
            Change::Upsert { key, value: 0 },
        ),
        Stage::Flush | Stage::FlushHeader | Stage::FlushSync | Stage::FlushEnd => Some(
            (pages, Header { clean: true, ..h }, Answer::Flushed),
        ),
    }
}

/// There are page ids, and room in the counters, for whatever an upsert may add.
pub open spec fn upsert_fits(h: Header) -> bool {
    &&& h.next_page + depth_of(h) + 2 <= u32::MAX
    &&& h.leaf_cnt < u32::MAX
    &&& h.entry_cnt < u64::MAX
}

/// An index takes upserts for as long as it is one: it is never as high as the ceiling, and there
/// is always room in its counters.
pub proof fn law_upserts_fit(pages: Pages, h: Header)
    requires
        tree_ok(pages, h),
    ensures
        h.height < MAX_HEIGHT,
        upsert_fits(h),
{
    law_height(pages, h);
    law_page_cnt(pages, h);
    lemma_counters_bounded(pages, h);
}

pub struct PkIndex {
    pub(crate) pool: Pool,
    pub(crate) header: Header,
    pub(crate) stage: Stage,
    /// The nodes that the running upsert came through, and the slot it took in each.
    pub(crate) path: Vec<(u32, usize)>,
}

impl PkIndex {
    /// The header.
    pub closed spec fn head(&self) -> Header {
        self.header
    }

    /// Where the running operation stands.
    pub closed spec fn at(&self) -> Stage {
        self.stage
    }

    /// The way that the running operation came.
    pub closed spec fn way(&self) -> Seq<(u32, usize)> {
        self.path@
    }

    /// The pages in the pool.
    pub closed spec fn cached(&self) -> Pages {
        self.pool.cached()
    }

    /// The pages in the pool that have changed since they were last on disk.
    pub closed spec fn dirty(&self) -> Set<u32> {
        self.pool.dirty()
    }

    /// How many pages were read and written.
    pub closed spec fn stats(&self) -> (u64, u64) {
        self.pool.stats()
    }

    /// The next page that comes in finds a place at once.
    pub closed spec fn has_room(&self) -> bool {
        self.pool.has_room()
    }

    /// The slots of the pool as the clock sees them.
    pub closed spec fn clock(&self) -> Clock {
        self.pool.clock()
    }

    /// How many pages the pool may hold.
    pub closed spec fn cache_limit(&self) -> nat {
        self.pool.limit()
    }

    /// The tree pages, given those on disk.
    pub open spec fn pages(&self, disk: Pages) -> Pages {
        overlaid(disk, self.cached())
    }

    /// The tree pages on disk are `disk`, but for those that changed in the pool.
    pub open spec fn faithful(&self, disk: Pages) -> bool {
        clean_pages_match(disk, self.cached(), self.dirty())
    }

    /// What the running operation will come to.
    pub open spec fn outcome(&self, disk: Pages) -> Option<(Pages, Header, Answer)> {
        rest(self.at(), self.way(), self.head(), self.pages(disk))
    }

    /// While the header says clean, no page differs from the disk; and the running operation has
    /// what it needs.
    pub closed spec fn wf(&self) -> bool {
        &&& self.pool.wf()
        &&& self.header.clean ==> self.dirty() == Set::<u32>::empty()
        &&& match self.stage {
            Stage::Opening { change } | Stage::Opened { change } | Stage::Cleared { change } => {
                &&& self.header.clean
                &&& self.path@.len() == 0
                &&& change is Upsert ==> upsert_fits(self.header) && self.header.height
                    < MAX_HEIGHT
            },
            Stage::Descend { change, id, left } => {
                &&& !self.header.clean
                &&& change is Upsert ==> {
                    &&& upsert_fits(self.header)
                    &&& self.header.height < MAX_HEIGHT
                    &&& self.path@.len() + left == depth_of(self.header)
                    &&& self.slots_fit()
                }
            },
            Stage::Right { page, leaf, .. } => {
                &&& !self.header.clean
                &&& page_fits(page@)
                &&& leaf ==> self.header.leaf_cnt < u32::MAX
                &&& self.climbs()
            },
            Stage::Parent { .. } => !self.header.clean && self.climbs(),
            Stage::FlushHeader => self.dirty() == Set::<u32>::empty(),
            Stage::FlushSync | Stage::FlushEnd => self.header.clean,
            _ => true,
        }
    }

    /// Every slot of the path is a slot that a page can have.
    spec fn slots_fit(&self) -> bool {
        forall|i: int| 0 <= i < self.path@.len() ==> (#[trigger] self.path@[i]).1 < MAX_ENTRIES
    }

    /// There are page ids, and room in the counters, for the rest of a climb.
    spec fn climbs(&self) -> bool {
        &&& self.header.next_page + self.path@.len() + 1 <= u32::MAX
        &&& self.header.entry_cnt < u64::MAX
        &&& self.header.height < MAX_HEIGHT
        &&& self.slots_fit()
    }

    /// How many steps the running operation has left at most, not counting those that ask for a
    /// tree page to be read or written.
    pub open spec fn todo(&self) -> int {
        match self.at() {
            Stage::Idle => 0,
            Stage::Lookup { left, .. } => left + 1,
            Stage::Opening { .. } => 3 * depth_of(self.head()) as int + 7,
            Stage::Opened { .. } => 3 * depth_of(self.head()) as int + 6,
            Stage::Cleared { .. } => 3 * depth_of(self.head()) as int + 5,
            Stage::Descend { change, left, .. } => match change {
                Change::Upsert { .. } => 3 * left + 2 * self.way().len() + 4,
                Change::Remove { .. } => left + 1,
            },
            Stage::Right { .. } => 2 * self.way().len() as int + 2,
            Stage::Parent { .. } => 2 * self.way().len() as int + 1,
            Stage::Flush => 4,
            Stage::FlushHeader => 3,
            Stage::FlushSync => 2,
            Stage::FlushEnd => 1,
        }
    }

    /// The tree page that the next step works on, if it works on one.
    pub open spec fn wanted(&self) -> Option<u32> {
        match self.at() {
            Stage::Lookup { id, .. } => Some(id),
            Stage::Descend { id, .. } => Some(id),
            Stage::Right { right, .. } => Some(right),
            Stage::Parent { .. } => Some(
                if self.way().len() > 0 {
                    self.way().last().0
                } else {
                    self.head().next_page
                },
            ),
            _ => None,
        }
    }

    /// A step through the tree leaves the clean flag as it is, and while that is set, the header
    /// too.
    pub open spec fn clean_or_not(self, after: PkIndex) -> bool {
        &&& after.head().clean == self.head().clean
        &&& self.head().clean ==> after.head() == self.head()
    }

    /// What a step does: it brings the operation closer to its outcome, and moves as it should.
    pub open spec fn stepped(self, after: PkIndex, progress: Progress) -> bool {
        &&& self.nears(after, progress)
        &&& self.moved(after, progress)
        &&& self.at() is Lookup ==> self.only_looked(after)
        &&& self.ticked(after, progress)
    }

    /// Nothing but the clock and the place of the running operation has changed.
    pub open spec fn only_looked(self, after: PkIndex) -> bool {
        &&& after.cached() == self.cached()
        &&& after.dirty() == self.dirty()
        &&& after.head() == self.head()
    }

    /// The clock after page `id` was asked for. It is `there` in the end if it was, or if it came
    /// in.
    pub open spec fn clock_after(self, id: u32, there: bool) -> Clock {
        let room = self.clock().with_room(self.cache_limit());
        if self.cached().contains_key(id) {
            self.clock().touched(id)
        } else if there {
            room.entered(id, self.cache_limit())
        } else {
            room
        }
    }

    /// What a step does to the clock. The page that it works on is used. For one that is not in
    /// the pool the hand looks for a slot, and if the page in that slot has changed, it is the one
    /// that is asked to be written.
    pub open spec fn ticked(self, after: PkIndex, progress: Progress) -> bool {
        match progress {
            Progress::Io(Request::Read { id }) => after.clock() == self.clock_after(id, false),
            Progress::Io(Request::Write { id, .. }) => if self.at() is Flush {
                after.clock() == self.clock()
            } else {
                &&& after.clock() == self.clock_after(self.wanted()->0, false)
                &&& id == after.clock().ids[after.clock().hand]
            },
            Progress::More | Progress::Done(_) | Progress::Damaged => after.clock()
                == if self.wanted() is Some {
                self.clock_after(self.wanted()->0, true)
            } else {
                self.clock()
            },
            _ => after.clock() == self.clock(),
        }
    }

    /// The outcome of the operation stays what it was, whatever is on disk, until it is reached.
    pub open spec fn nears(self, after: PkIndex, progress: Progress) -> bool {
        forall|disk: Pages|
            #![trigger self.faithful(disk)]
            self.faithful(disk) ==> {
                &&& after.faithful(disk)
                &&& match progress {
                    Progress::More | Progress::Io(_) => after.outcome(disk) == self.outcome(disk),
                    Progress::Done(answer) => self.outcome(disk) == Some(
                        (after.pages(disk), after.head(), answer),
                    ),
                    Progress::Damaged => self.outcome(disk) is None,
                    Progress::Idle => after.pages(disk) == self.pages(disk),
                }
            }
    }

    /// Nothing is asked for that the pool has, and whatever is asked to be written is what the
    /// index holds. Every step that does not ask for a tree page leaves less to do.
    pub open spec fn moved(self, after: PkIndex, progress: Progress) -> bool {
        &&& after.cache_limit() == self.cache_limit()
        &&& after.stats() == self.stats()
        &&& match progress {
            Progress::More => {
                &&& after.todo() < self.todo()
                &&& after.at().travels()
                &&& if self.at() is Cleared {
                    &&& after.head() == opened(self.head())
                    &&& after.cached() == self.cached()
                    &&& after.dirty() == self.dirty()
                } else {
                    &&& self.at().travels()
                    &&& self.clean_or_not(after)
                }
            },
            Progress::Io(Request::Read { id }) => {
                &&& self.wanted() == Some(id)
                &&& !self.cached().contains_key(id)
                &&& after.has_room()
                &&& after.cached() == self.cached()
                &&& after.dirty() == self.dirty()
                &&& after.head() == self.head()
                &&& after.at() == self.at()
                &&& after.way() == self.way()
            },
            Progress::Io(Request::Write { id, page }) => {
                &&& self.cached().contains_key(id)
                &&& self.dirty().contains(id)
                &&& page@ == self.cached()[id]
                &&& self.at() is Flush || self.wanted() is Some && !self.cached().contains_key(
                    self.wanted()->0,
                )
                &&& after.cached() == self.cached()
                &&& after.dirty() == self.dirty()
                &&& after.head() == self.head()
                &&& after.at() == self.at()
                &&& after.way() == self.way()
            },
            Progress::Io(Request::WriteHeader { page }) => {
                &&& after.cached() == self.cached()
                &&& after.dirty() == self.dirty()
                &&& after.todo() < self.todo()
                &&& match self.at() {
                    Stage::Opening { .. } => {
                        &&& page@ == header_page(opened(self.head()))
                        &&& after.head() == self.head()
                        &&& after.at() is Opened
                    },
                    Stage::FlushHeader => {
                        &&& page@ == header_page(after.head())
                        &&& after.head() == (Header { clean: true, ..self.head() })
                        &&& after.at() is FlushSync
                    },
                    _ => false,
                }
            },
            Progress::Io(Request::Sync) => {
                &&& after.cached() == self.cached()
                &&& after.dirty() == self.dirty()
                &&& after.head() == self.head()
                &&& after.todo() < self.todo()
                &&& match self.at() {
                    Stage::Opened { .. } => after.at() is Cleared,
                    Stage::Flush => after.at() is FlushHeader && self.dirty() == Set::<u32>::empty(),
                    Stage::FlushSync => after.at() is FlushEnd,
                    _ => false,
                }
            },
            Progress::Done(_) | Progress::Damaged => {
                &&& after.at() is Idle
                &&& self.at().travels() || self.at() is FlushEnd
                &&& self.clean_or_not(after)
            },
            Progress::Idle => self.at() is Idle && after.head() == self.head() && after.at() is Idle,
        }
    }

    /// Opens an existing index by its page 0. Fails if it was not closed cleanly or was built
    /// over a different file: in both cases the caller's move is to rebuild, not to repair.
    pub fn open(
        page: &Page,
        source_len: u64,
        source_frame_cnt: u32,
        cache_pages: usize,
    ) -> (index: Result<PkIndex, Error>)
        ensures
            match header_of(page@) {
                Err(e) => index == Err::<PkIndex, Error>(e),
                Ok(h) => if !h.clean {
                    index == Err::<PkIndex, Error>(Error::IndexDirty)
                } else if h.source_len != source_len || h.source_frame_cnt != source_frame_cnt {
                    index == Err::<PkIndex, Error>(
                        Error::IndexStale {
                            built_len: h.source_len,
                            built_frames: h.source_frame_cnt,
                            source_len,
                            source_frames: source_frame_cnt,
                        },
                    )
                } else {
                    index is Ok && index->Ok_0.is_new(h, cache_pages)
                },
            },
    {
        let header = match Header::decode(page) {
            Ok(header) => header,
            Err(e) => {
                return Err(e);
            },
        };
        if !header.clean {
            return Err(Error::IndexDirty);
        }
        if header.source_len != source_len || header.source_frame_cnt != source_frame_cnt {
            return Err(
                Error::IndexStale {
                    built_len: header.source_len,
                    built_frames: header.source_frame_cnt,
                    source_len,
                    source_frames: source_frame_cnt,
                },
            );
        }
        Ok(PkIndex::with_header(header, cache_pages))
    }

    /// An index that was just opened: nothing is in the pool and nothing is running.
    pub open spec fn is_new(&self, h: Header, cache_pages: usize) -> bool {
        &&& self.wf()
        &&& self.head() == h
        &&& self.at() is Idle
        &&& self.cached() == Map::<u32, Seq<u8>>::empty()
        &&& self.dirty() == Set::<u32>::empty()
        &&& self.stats() == (0u64, 0u64)
        &&& self.clock() == (Clock { ids: Seq::empty(), used: Seq::empty(), hand: 0 })
        &&& self.cache_limit() == if cache_pages < 8 {
            8
        } else {
            cache_pages as int
        }
    }

    pub(crate) fn with_header(header: Header, cache_pages: usize) -> (index: PkIndex)
        ensures
            index.is_new(header, cache_pages),
    {
        PkIndex { pool: Pool::new(cache_pages), header, stage: Stage::Idle, path: Vec::new() }
    }

    pub fn entry_cnt(&self) -> (n: u64)
        ensures
            n == self.head().entry_cnt,
    {
        self.header.entry_cnt
    }

    pub fn leaf_cnt(&self) -> (n: u32)
        ensures
            n == self.head().leaf_cnt,
    {
        self.header.leaf_cnt
    }

    pub fn height(&self) -> (n: u32)
        ensures
            n == self.head().height,
    {
        self.header.height
    }

    pub fn page_cnt(&self) -> (n: u32)
        ensures
            n == self.head().next_page,
    {
        self.header.next_page
    }

    /// Key bounds. Exact after a bulk load and after inserts; deletes never narrow them, so
    /// treat them as bounds rather than as the actual extremes.
    pub fn key_bounds(&self) -> (bounds: (u32, u32))
        ensures
            bounds == (self.head().min_key, self.head().max_key),
    {
        (self.header.min_key, self.header.max_key)
    }

    /// How many tree pages were read and written.
    pub fn cache_stats(&self) -> (stats: (u64, u64))
        ensures
            stats == self.stats(),
    {
        self.pool.counts()
    }

    pub fn size_on_disk(&self) -> (len: u64)
        ensures
            len == self.head().next_page * PAGE_LEN,
    {
        page_at(self.header.next_page)
    }

    /// What a start leaves alone.
    pub open spec fn same_pages(self, after: PkIndex) -> bool {
        &&& after.cached() == self.cached()
        &&& after.dirty() == self.dirty()
        &&& after.head() == self.head()
        &&& after.clock() == self.clock()
        &&& after.stats() == self.stats()
        &&& after.cache_limit() == self.cache_limit()
    }

    /// The level that a descent starts from, counted from the leaves.
    fn depth(&self) -> (depth: u32)
        ensures
            depth == depth_of(self.head()),
    {
        if self.header.height == 0 {
            0
        } else {
            self.header.height - 1
        }
    }

    /// Resolves a pk to the frame holding it: `height` page reads, all but the last of which
    /// come out of the pool in steady state.
    pub fn lookup(&mut self, key: u32)
        requires
            old(self).wf(),
        ensures
            final(self).wf(),
            old(self).same_pages(*final(self)),
            final(self).at() is Lookup,
            forall|disk: Pages| #[trigger]
                final(self).outcome(disk) == Some(
                    (
                        final(self).pages(disk),
                        final(self).head(),
                        Answer::Found(get(final(self).pages(disk), final(self).head(), key)),
                    ),
                ),
    {
        let left: u32 = self.depth();
        self.stage = Stage::Lookup { key, id: self.header.root, left };
    }

    /// Starts a change: at the leaves if the clean flag is cleared already.
    fn start(&mut self, change: Change)
        requires
            old(self).wf(),
            change is Upsert ==> upsert_fits(old(self).head()) && old(self).head().height
                < MAX_HEIGHT,
        ensures
            final(self).wf(),
            old(self).same_pages(*final(self)),
            old(self).head().clean ==> final(self).at() is Opening,
            !old(self).head().clean ==> final(self).at() is Descend,
            forall|disk: Pages| #[trigger]
                final(self).outcome(disk) == changed(final(self).pages(disk), final(self).head(), change),
    {
        self.path.clear();
        if self.header.clean {
            self.stage = Stage::Opening { change };
        } else {
            let left: u32 = self.depth();
            self.stage = Stage::Descend { change, id: self.header.root, left };
            proof {
                assert(opened(self.header) == self.header);
                assert forall|disk: Pages| #[trigger]
                    self.outcome(disk) == changed(self.pages(disk), self.head(), change) by {
                    let pages = self.pages(disk);
                    let way = path_for(pages, self.header.root, left as nat, change.spec_key());
                    assert(self.path@ + way =~= way);
                }
            }
        }
    }

    /// Inserts the key, or repoints an existing one. The answer tells whether the key was new.
    pub fn upsert(&mut self, key: u32, frame_idx: u32) -> (started: Result<(), Error>)
        requires
            old(self).wf(),
            old(self).head().height < MAX_HEIGHT ==> upsert_fits(old(self).head()),
        ensures
            final(self).wf(),
            old(self).same_pages(*final(self)),
            old(self).head().height >= MAX_HEIGHT ==> started == Err::<(), Error>(
                Error::HeightCeiling,
            ) && *final(self) == *old(self),
            old(self).head().height < MAX_HEIGHT ==> {
                &&& started is Ok
                &&& old(self).head().clean ==> final(self).at() is Opening
                &&& !old(self).head().clean ==> final(self).at() is Descend
                &&& forall|disk: Pages| #[trigger]
                    final(self).outcome(disk) == told(
                        upserted(final(self).pages(disk), final(self).head(), key, frame_idx),
                        Change::Upsert { key, value: frame_idx },
                    )
            },
    {
        if self.header.height as usize >= MAX_HEIGHT {
            return Err(Error::HeightCeiling);
        }
        self.start(Change::Upsert { key, value: frame_idx });
        Ok(())
    }

    /// Removes the key. The answer tells whether it was there.
    ///
    /// Lazy: the page keeps its size and is never merged with a neighbour.
    pub fn remove(&mut self, key: u32)
        requires
            old(self).wf(),
        ensures
            final(self).wf(),
            old(self).same_pages(*final(self)),
            old(self).head().clean ==> final(self).at() is Opening,
            !old(self).head().clean ==> final(self).at() is Descend,
            forall|disk: Pages| #[trigger]
                final(self).outcome(disk) == told(
                    removed(final(self).pages(disk), final(self).head(), key),
                    Change::Remove { key },
                ),
    {
        self.start(Change::Remove { key });
    }

    /// Makes the index durable and reusable by the next process. Without this the index stays
    /// marked dirty and the next `open` rejects it.
    pub fn flush(&mut self)
        requires
            old(self).wf(),
        ensures
            final(self).wf(),
            old(self).same_pages(*final(self)),
            final(self).at() is Flush,
            forall|disk: Pages| #[trigger]
                final(self).outcome(disk) == Some(
                    (
                        final(self).pages(disk),
                        Header { clean: true, ..final(self).head() },
                        Answer::Flushed,
                    ),
                ),
    {
        self.stage = Stage::Flush;
    }

    /// Takes in a tree page that was read. Tells whether it was waited for.
    pub fn supply(&mut self, id: u32, page: &Page) -> (taken: bool)
        requires
            old(self).wf(),
            page_fits(page@),
            old(self).stats().0 < u64::MAX,
        ensures
            final(self).wf(),
            final(self).head() == old(self).head(),
            final(self).at() == old(self).at(),
            final(self).way() == old(self).way(),
            final(self).dirty() == old(self).dirty(),
            final(self).cache_limit() == old(self).cache_limit(),
            final(self).clock() == if old(self).cached().contains_key(id) {
                old(self).clock()
            } else {
                old(self).clock_after(id, taken)
            },
            old(self).has_room() && !old(self).cached().contains_key(id) ==> taken,
            old(self).cached().contains_key(id) ==> !taken,
            taken ==> {
                &&& final(self).cached().contains_key(id)
                &&& final(self).cached()[id] == page@
                &&& final(self).stats() == ((old(self).stats().0 + 1) as u64, old(self).stats().1)
            },
            !taken ==> final(self).cached() == old(self).cached() && final(self).stats() == old(
                self,
            ).stats(),
            forall|disk: Pages|
                #![trigger old(self).faithful(disk)]
                old(self).faithful(disk) && disk.contains_key(id) && disk[id] == page@ ==> {
                    &&& final(self).faithful(disk)
                    &&& final(self).pages(disk) == old(self).pages(disk)
                    &&& final(self).outcome(disk) == old(self).outcome(disk)
                },
    {
        self.pool.take_in(id, page)
    }

    /// Takes notice that a tree page was written as it was asked to be. Tells whether the page
    /// is in the pool.
    pub fn written(&mut self, id: u32) -> (found: bool)
        requires
            old(self).wf(),
            old(self).stats().1 < u64::MAX,
        ensures
            final(self).wf(),
            final(self).head() == old(self).head(),
            final(self).at() == old(self).at(),
            final(self).way() == old(self).way(),
            final(self).cached() == old(self).cached(),
            final(self).dirty() == old(self).dirty().remove(id),
            final(self).clock() == old(self).clock(),
            final(self).cache_limit() == old(self).cache_limit(),
            found == old(self).cached().contains_key(id),
            final(self).stats() == if found {
                (old(self).stats().0, (old(self).stats().1 + 1) as u64)
            } else {
                old(self).stats()
            },
            found ==> forall|disk: Pages|
                #![trigger old(self).faithful(disk)]
                old(self).faithful(disk) ==> {
                    let disk2 = disk.insert(id, old(self).cached()[id]);
                    &&& final(self).faithful(disk2)
                    &&& final(self).pages(disk2) == old(self).pages(disk)
                    &&& final(self).outcome(disk2) == old(self).outcome(disk)
                },
    {
        let found = self.pool.mark_written(id);
        proof {
            if found {
                assert forall|disk: Pages|
                    #![trigger old(self).faithful(disk)]
                    old(self).faithful(disk) implies {
                    let disk2 = disk.insert(id, old(self).cached()[id]);
                    &&& self.faithful(disk2)
                    &&& self.pages(disk2) == old(self).pages(disk)
                    &&& self.outcome(disk2) == old(self).outcome(disk)
                } by {
                    lemma_written(disk, old(self).cached(), old(self).dirty(), id);
                }
            }
            assert(old(self).dirty() == Set::<u32>::empty() ==> self.dirty() =~= Set::<
                u32,
            >::empty());
        }
        found
    }

    /// The slot of the page that the step works on, or what has to be done first.
    fn enter(&mut self, id: u32, load: bool) -> (slot: Result<usize, Progress>)
        requires
            old(self).wf(),
            old(self).wanted() == Some(id),
        ensures
            final(self).wf() || slot is Ok,
            match slot {
                Ok(slot) => {
                    &&& final(self).pool.wf()
                    &&& final(self).pool.holds(slot)
                    &&& final(self).pool.id_in(slot) == id
                    &&& final(self).header == old(self).header
                    &&& final(self).stage == old(self).stage
                    &&& final(self).path == old(self).path
                    &&& final(self).stats() == old(self).stats()
                    &&& final(self).cache_limit() == old(self).cache_limit()
                    &&& final(self).clock() == old(self).clock_after(id, true)
                    &&& load || old(self).cached().contains_key(id) ==> final(self).cached()
                        == old(self).cached() && final(self).dirty() == old(self).dirty()
                    &&& final(self).cached().contains_key(id)
                    &&& forall|disk: Pages|
                        #![trigger old(self).faithful(disk)]
                        old(self).faithful(disk) ==> {
                            &&& final(self).faithful(disk)
                            &&& forall|p: Seq<u8>| #[trigger]
                                final(self).pages(disk).insert(id, p) == old(self).pages(
                                    disk,
                                ).insert(id, p)
                        }
                },
                Err(progress) => {
                    &&& old(self).stepped(*final(self), progress)
                    &&& progress is Io
                },
            },
    {
        let access = self.pool.slot_for(id, load);
        match access {
            Access::Ready(slot) => {
                proof {
                    self.pool.lemma_holds(slot);
                    assert forall|disk: Pages|
                        #![trigger old(self).faithful(disk)]
                        old(self).faithful(disk) implies {
                        &&& self.faithful(disk)
                        &&& forall|p: Seq<u8>| #[trigger]
                            self.pages(disk).insert(id, p) == old(self).pages(disk).insert(id, p)
                    } by {
                        assert(overlaid(disk, self.pool.cached()) == self.pages(disk));
                        assert forall|p: Seq<u8>| #[trigger]
                            self.pages(disk).insert(id, p) == old(self).pages(disk).insert(
                                id,
                                p,
                            ) by {
                            assert(self.pages(disk).insert(id, p) =~= old(self).pages(disk).insert(
                                id,
                                p,
                            ));
                        }
                    }
                }
                Ok(slot)
            },
            Access::Read => Err(Progress::Io(Request::Read { id })),
            Access::Write(out, page) => Err(Progress::Io(Request::Write { id: out, page })),
        }
    }

    fn step_lookup(&mut self, key: u32, id: u32, left: u32) -> (progress: Progress)
        requires
            old(self).wf(),
            old(self).at() == (Stage::Lookup { key, id, left }),
        ensures
            final(self).wf(),
            old(self).stepped(*final(self), progress),
    {
        let slot: usize = match self.enter(id, true) {
            Ok(slot) => slot,
            Err(progress) => {
                return progress;
            },
        };
        let page = self.pool.page(slot);
        let count: usize = get_count(page);
        if left > 0 {
            let at: usize = descend_slot(page, count, key);
            let child: u32 = get_value(page, at);
            self.stage = Stage::Lookup { key, id: child, left: left - 1 };
            Progress::More
        } else {
            proof {
                lemma_entries_len(page@);
            }
            let found = match leaf_slot(page, count, key) {
                Ok(at) => Some(get_value(page, at)),
                Err(_) => None,
            };
            self.stage = Stage::Idle;
            Progress::Done(Answer::Found(found))
        }
    }

    /// Clears the on-disk clean flag before the first mutation of this uptime window. One fsync
    /// per window, not per write. The flag in memory stays until the cleared one is durable, so an
    /// operation that does not get that far leaves the next one to clear it.
    fn step_opening(&mut self, change: Change) -> (progress: Progress)
        requires
            old(self).wf(),
            old(self).at() == (Stage::Opening { change }),
        ensures
            final(self).wf(),
            old(self).stepped(*final(self), progress),
    {
        let mut cleared = self.header;
        cleared.clean = false;
        let page = cleared.encode();
        self.stage = Stage::Opened { change };
        Progress::Io(Request::WriteHeader { page })
    }

    /// Makes the cleared flag durable.
    fn step_opened(&mut self, change: Change) -> (progress: Progress)
        requires
            old(self).wf(),
            old(self).at() == (Stage::Opened { change }),
        ensures
            final(self).wf(),
            old(self).stepped(*final(self), progress),
    {
        self.stage = Stage::Cleared { change };
        Progress::Io(Request::Sync)
    }

    /// Takes notice that the flag is cleared for good, and starts at the root.
    fn step_cleared(&mut self, change: Change) -> (progress: Progress)
        requires
            old(self).wf(),
            old(self).at() == (Stage::Cleared { change }),
        ensures
            final(self).wf(),
            old(self).stepped(*final(self), progress),
    {
        let left: u32 = self.depth();
        self.header.clean = false;
        self.stage = Stage::Descend { change, id: self.header.root, left };
        proof {
            assert(self.header == opened(old(self).header));
            assert(opened(self.header) == self.header);
            assert forall|disk: Pages|
                #![trigger old(self).faithful(disk)]
                self.outcome(disk) == old(self).outcome(disk) by {
                let pages = self.pages(disk);
                let way = path_for(pages, self.header.root, left as nat, change.spec_key());
                assert(self.path@ + way =~= way);
            }
        }
        Progress::More
    }

    /// Goes down one level, remembering the node and the slot, which is what a split needs to
    /// walk back up.
    fn step_descend(&mut self, change: Change, id: u32, left: u32) -> (progress: Progress)
        requires
            old(self).wf(),
            old(self).at() == (Stage::Descend { change, id, left }),
            left > 0,
        ensures
            final(self).wf(),
            old(self).stepped(*final(self), progress),
    {
        let slot: usize = match self.enter(id, true) {
            Ok(slot) => slot,
            Err(progress) => {
                return progress;
            },
        };
        let page = self.pool.page(slot);
        let key: u32 = change.key();
        let at: usize = descend_slot(page, get_count(page), key);
        let child: u32 = get_value(page, at);
        let ghost p = page@;
        if let Change::Upsert { .. } = change {
            self.path.push((id, at));
        }
        self.stage = Stage::Descend { change, id: child, left: left - 1 };
        proof {
            assert forall|disk: Pages|
                #![trigger old(self).faithful(disk)]
                old(self).faithful(disk) implies self.faithful(disk) && self.outcome(disk) == old(
                self,
            ).outcome(disk) by {
                let pages = old(self).pages(disk);
                assert(self.pages(disk) == pages);
                assert(pages[id] == p);
                assert(child == child_at(pages[id], key));
                let below = path_for(pages, child, (left - 1) as nat, key);
                if change is Upsert {
                    assert(self.path@ + below =~= old(self).path@ + path_for(
                        pages,
                        id,
                        left as nat,
                        key,
                    ));
                }
            }
        }
        Progress::More
    }

    /// Counts one more entry and widens the key bounds to have its key.
    fn note_key(&mut self, key: u32)
        requires
            old(self).header.entry_cnt < u64::MAX,
        ensures
            *final(self) == (PkIndex { header: counted(old(self).header, key), ..*old(self) }),
    {
        self.header.entry_cnt = self.header.entry_cnt + 1;
        if self.header.entry_cnt == 1 {
            self.header.min_key = key;
            self.header.max_key = key;
            return;
        }
        if key < self.header.min_key {
            self.header.min_key = key;
        }
        if key > self.header.max_key {
            self.header.max_key = key;
        }
    }

    /// Takes the key out of its leaf.
    fn step_take(&mut self, key: u32, leaf: u32) -> (progress: Progress)
        requires
            old(self).wf(),
            old(self).at() == (Stage::Descend {
                change: Change::Remove { key },
                id: leaf,
                left: 0,
            }),
        ensures
            final(self).wf(),
            old(self).stepped(*final(self), progress),
    {
        let slot: usize = match self.enter(leaf, true) {
            Ok(slot) => slot,
            Err(progress) => {
                return progress;
            },
        };
        let mut page: Page = *self.pool.page(slot);
        let count: usize = get_count(&page);
        let ghost p = page@;
        self.stage = Stage::Idle;
        let hit = match leaf_slot(&page, count, key) {
            Ok(at) => {
                if self.header.entry_cnt == 0 {
                    return Progress::Damaged;
                }
                remove_at(&mut page, count, at);
                self.header.entry_cnt = self.header.entry_cnt - 1;
                true
            },
            Err(_) => false,
        };
        self.pool.store(slot, page);
        proof {
            assert forall|disk: Pages|
                #![trigger old(self).faithful(disk)]
                old(self).faithful(disk) implies self.faithful(disk) && old(self).outcome(disk)
                == Some((self.pages(disk), self.head(), Answer::Removed(hit))) by {
                let pages = old(self).pages(disk);
                lemma_changed(disk, old(self).cached(), old(self).dirty(), leaf, page@);
                assert(pages[leaf] == p);
                if !hit {
                    assert(pages.insert(leaf, p) =~= pages);
                }
            }
        }
        Progress::Done(Answer::Removed(hit))
    }

    /// Puts the key into its leaf, which splits if it is full and the key is new.
    fn step_put(&mut self, key: u32, value: u32, leaf: u32) -> (progress: Progress)
        requires
            old(self).wf(),
            old(self).at() == (Stage::Descend {
                change: Change::Upsert { key, value },
                id: leaf,
                left: 0,
            }),
        ensures
            final(self).wf(),
            old(self).stepped(*final(self), progress),
    {
        let slot: usize = match self.enter(leaf, true) {
            Ok(slot) => slot,
            Err(progress) => {
                return progress;
            },
        };
        let mut page: Page = *self.pool.page(slot);
        let count: usize = get_count(&page);
        let ghost p = page@;
        let ghost way = self.path@;
        proof {
            lemma_entries_len(p);
            assert forall|disk: Pages|
                #![trigger old(self).faithful(disk)]
                old(self).faithful(disk) implies old(self).pages(disk)[leaf] == p && old(
                self,
            ).outcome(disk) == told(
                upsert_leaf(old(self).pages(disk), old(self).header, leaf, way, key, value),
                Change::Upsert { key, value },
            ) by {
                let pages = old(self).pages(disk);
                assert(way + path_for(pages, leaf, 0, key) =~= way);
            }
        }
        let pos: usize = match leaf_slot(&page, count, key) {
            Ok(at) => {
                proof {
                    lemma_with_value(p, at as int, value);
                }
                set_value(&mut page, at, value);
                self.pool.store(slot, page);
                self.stage = Stage::Idle;
                proof {
                    assert forall|disk: Pages|
                        #![trigger old(self).faithful(disk)]
                        old(self).faithful(disk) implies self.faithful(disk) && self.pages(disk)
                        == old(self).pages(disk).insert(leaf, page@) by {
                        lemma_changed(disk, old(self).cached(), old(self).dirty(), leaf, page@);
                    }
                }
                return Progress::Done(Answer::Upserted(false));
            },
            Err(at) => at,
        };
        if count < MAX_ENTRIES {
            insert_at(&mut page, count, pos, key, value);
            self.pool.store(slot, page);
            self.note_key(key);
            self.stage = Stage::Idle;
            proof {
                assert forall|disk: Pages|
                    #![trigger old(self).faithful(disk)]
                    old(self).faithful(disk) implies self.faithful(disk) && self.pages(disk)
                    == old(self).pages(disk).insert(leaf, page@) by {
                    lemma_changed(disk, old(self).cached(), old(self).dirty(), leaf, page@);
                }
            }
            return Progress::Done(Answer::Upserted(true));
        }
        // Full, and the key is new: the leaf has to split.
        self.split_leaf(slot, leaf, key, value, pos)
    }

    /// Leaves the lower half of a full leaf and of the new entry in its page. The upper half is
    /// for a page of its own.
    fn split_leaf(&mut self, slot: usize, leaf: u32, key: u32, value: u32, pos: usize) -> (progress:
        Progress)
        requires
            old(self).wf(),
            old(self).at() == (Stage::Descend {
                change: Change::Upsert { key, value },
                id: leaf,
                left: 0,
            }),
            old(self).pool.holds(slot),
            old(self).pool.id_in(slot) == leaf,
            old(self).cached().contains_key(leaf),
            count_of(old(self).cached()[leaf]) == MAX_ENTRIES,
            slot_of(entries_of(old(self).cached()[leaf]), key) == Err::<int, int>(pos as int),
            pos <= MAX_ENTRIES,
        ensures
            final(self).wf(),
            old(self).nears(*final(self), progress),
            old(self).moved(*final(self), progress),
            progress is More,
            final(self).clock() == old(self).clock(),
    {
        let mut page: Page = *self.pool.page(slot);
        let count: usize = get_count(&page);
        let ghost p = page@;
        proof {
            lemma_entries_len(p);
        }
        let merged = merged_entries(&page, count, pos, key, value);
        let mid: usize = merged.len() / 2;
        let right: u32 = self.header.next_page;
        let upper = halve_leaf(&mut page, &merged, right);
        self.pool.store(slot, page);
        self.header.next_page = self.header.next_page + 1;
        self.stage = Stage::Right {
            key,
            leaf: true,
            right,
            page: upper,
            left_separator: merged[0].0,
            separator: merged[mid].0,
        };
        proof {
            assert forall|disk: Pages|
                #![trigger old(self).faithful(disk)]
                old(self).faithful(disk) implies self.faithful(disk) && self.outcome(disk) == old(
                self,
            ).outcome(disk) by {
                let pages = old(self).pages(disk);
                assert(pages[leaf] == p);
                assert(old(self).path@ + path_for(pages, leaf, 0, key) =~= old(self).path@);
                lemma_changed(disk, old(self).cached(), old(self).dirty(), leaf, page@);
                assert(self.pages(disk).insert(right, upper@) == leaf_halves(
                    pages,
                    leaf,
                    right,
                    merged@,
                ));
            }
        }
        Progress::More
    }

    /// Brings the right half of a split page into the pool.
    fn step_right(
        &mut self,
        key: u32,
        leaf: bool,
        right: u32,
        page: Page,
        left_separator: u32,
        separator: u32,
    ) -> (progress: Progress)
        requires
            old(self).wf(),
            match old(self).at() {
                Stage::Right {
                    key: k,
                    leaf: l,
                    right: r,
                    page: p,
                    left_separator: ls,
                    separator: s,
                } => k == key && l == leaf && r == right && p@ == page@ && ls == left_separator
                    && s == separator,
                _ => false,
            },
        ensures
            final(self).wf(),
            old(self).stepped(*final(self), progress),
    {
        let slot: usize = match self.enter(right, false) {
            Ok(slot) => slot,
            Err(progress) => {
                return progress;
            },
        };
        let ghost entered = *self;
        self.pool.store(slot, page);
        if leaf {
            self.header.leaf_cnt = self.header.leaf_cnt + 1;
        }
        self.stage = Stage::Parent { key, left_separator, separator, child: right };
        proof {
            assert forall|disk: Pages|
                #![trigger old(self).faithful(disk)]
                old(self).faithful(disk) implies self.faithful(disk) && self.outcome(disk) == old(
                self,
            ).outcome(disk) by {
                lemma_changed(disk, entered.cached(), entered.dirty(), right, page@);
                assert(entered.pages(disk).insert(right, page@) == old(self).pages(disk).insert(
                    right,
                    page@,
                ));
            }
        }
        Progress::More
    }

    /// Raises a new root over the two halves of the old one.
    fn step_root(&mut self, key: u32, left_separator: u32, separator: u32, child: u32) -> (progress:
        Progress)
        requires
            old(self).wf(),
            old(self).at() == (Stage::Parent { key, left_separator, separator, child }),
            old(self).way().len() == 0,
        ensures
            final(self).wf(),
            old(self).stepped(*final(self), progress),
    {
        let new_root: u32 = self.header.next_page;
        let slot: usize = match self.enter(new_root, false) {
            Ok(slot) => slot,
            Err(progress) => {
                return progress;
            },
        };
        let ghost entered = *self;
        let mut page: Page = [0u8;PAGE_LEN];
        init_page(&mut page, MAGIC_NODE, self.header.height as u8);
        fill_entries(&mut page, &[(left_separator, self.header.root), (separator, child)]);
        proof {
            let e = seq![(left_separator, self.header.root), (separator, child)];
            assert([(left_separator, self.header.root), (separator, child)]@ =~= e);
            lemma_blank(MAGIC_NODE, self.header.height as u8);
            lemma_with_entries(blank(MAGIC_NODE, self.header.height as u8), e);
        }
        self.pool.store(slot, page);
        self.header.root = new_root;
        self.header.height = self.header.height + 1;
        self.header.next_page = self.header.next_page + 1;
        let ghost raised = self.header;
        self.note_key(key);
        self.stage = Stage::Idle;
        proof {
            assert forall|disk: Pages|
                #![trigger old(self).faithful(disk)]
                old(self).faithful(disk) implies self.faithful(disk) && old(self).outcome(disk)
                == Some((self.pages(disk), self.head(), Answer::Upserted(true))) by {
                lemma_changed(disk, entered.cached(), entered.dirty(), new_root, page@);
                assert(entered.pages(disk).insert(new_root, page@) == old(self).pages(disk).insert(
                    new_root,
                    page@,
                ));
                assert(grow(
                    old(self).pages(disk),
                    old(self).header,
                    old(self).path@,
                    left_separator,
                    separator,
                    child,
                ) == Some((self.pages(disk), raised)));
            }
        }
        Progress::Done(Answer::Upserted(true))
    }

    /// Enters a new child into its parent, the last of the path, which splits if it is full.
    fn step_parent(
        &mut self,
        key: u32,
        left_separator: u32,
        separator: u32,
        child: u32,
    ) -> (progress: Progress)
        requires
            old(self).wf(),
            old(self).at() == (Stage::Parent { key, left_separator, separator, child }),
            old(self).way().len() > 0,
        ensures
            final(self).wf(),
            old(self).stepped(*final(self), progress),
    {
        let (node, through) = self.path[self.path.len() - 1];
        let slot: usize = match self.enter(node, true) {
            Ok(slot) => slot,
            Err(progress) => {
                return progress;
            },
        };
        let mut page: Page = *self.pool.page(slot);
        let count: usize = get_count(&page);
        let ghost p = page@;
        // The new child belongs directly to the right of the one we descended into.
        let pos: usize = through + 1;
        proof {
            lemma_entries_len(p);
            assert(old(self).path@.last() == (node, through));
        }
        if pos > count {
            self.stage = Stage::Idle;
            return Progress::Damaged;
        }
        if count < MAX_ENTRIES {
            insert_at(&mut page, count, pos, separator, child);
            self.pool.store(slot, page);
            self.note_key(key);
            self.stage = Stage::Idle;
            proof {
                assert forall|disk: Pages|
                    #![trigger old(self).faithful(disk)]
                    old(self).faithful(disk) implies self.faithful(disk) && old(self).outcome(disk)
                    == Some((self.pages(disk), self.head(), Answer::Upserted(true))) by {
                    lemma_changed(disk, old(self).cached(), old(self).dirty(), node, page@);
                    assert(old(self).pages(disk)[node] == p);
                }
            }
            return Progress::Done(Answer::Upserted(true));
        }
        let merged = merged_entries(&page, count, pos, separator, child);
        let mid: usize = merged.len() / 2;
        let right: u32 = self.header.next_page;
        let level: u8 = get_level(&page);
        let mut upper: Page = [0u8;PAGE_LEN];
        init_page(&mut upper, MAGIC_NODE, level);
        fill_entries(&mut upper, &merged[mid..merged.len()]);
        fill_entries(&mut page, &merged[0..mid]);
        proof {
            let m = merged@;
            assert(m.subrange(0, mid as int) =~= m.take(mid as int));
            assert(m.subrange(mid as int, m.len() as int) =~= m.skip(mid as int));
            lemma_with_entries(p, m.take(mid as int));
            lemma_blank(MAGIC_NODE, level);
            lemma_with_entries(blank(MAGIC_NODE, level), m.skip(mid as int));
        }
        self.pool.store(slot, page);
        self.header.next_page = self.header.next_page + 1;
        self.path.pop();
        self.stage = Stage::Right {
            key,
            leaf: false,
            right,
            page: Box::new(upper),
            left_separator: merged[0].0,
            separator: merged[mid].0,
        };
        proof {
            assert(self.path@ == old(self).path@.drop_last());
            assert forall|disk: Pages|
                #![trigger old(self).faithful(disk)]
                old(self).faithful(disk) implies self.faithful(disk) && self.outcome(disk) == old(
                self,
            ).outcome(disk) by {
                lemma_changed(disk, old(self).cached(), old(self).dirty(), node, page@);
                assert(old(self).pages(disk)[node] == p);
            }
        }
        Progress::More
    }

    /// Writes one changed page.
    fn step_flush(&mut self) -> (progress: Progress)
        requires
            old(self).wf(),
            old(self).at() is Flush,
        ensures
            final(self).wf(),
            old(self).stepped(*final(self), progress),
    {
        match self.pool.next_dirty() {
            Some((id, page)) => Progress::Io(Request::Write { id, page }),
            None => {
                // Pages first: the clean flag must not become visible ahead of what it vouches
                // for.
                self.stage = Stage::FlushHeader;
                Progress::Io(Request::Sync)
            },
        }
    }

    /// Writes the header, marked clean.
    fn step_flush_header(&mut self) -> (progress: Progress)
        requires
            old(self).wf(),
            old(self).at() is FlushHeader,
        ensures
            final(self).wf(),
            old(self).stepped(*final(self), progress),
    {
        self.header.clean = true;
        let page = self.header.encode();
        self.stage = Stage::FlushSync;
        Progress::Io(Request::WriteHeader { page })
    }

    /// Makes the header durable.
    fn step_flush_sync(&mut self) -> (progress: Progress)
        requires
            old(self).wf(),
            old(self).at() is FlushSync,
        ensures
            final(self).wf(),
            old(self).stepped(*final(self), progress),
    {
        self.stage = Stage::FlushEnd;
        Progress::Io(Request::Sync)
    }

    fn step_flush_end(&mut self) -> (progress: Progress)
        requires
            old(self).wf(),
            old(self).at() is FlushEnd,
        ensures
            final(self).wf(),
            old(self).stepped(*final(self), progress),
    {
        self.stage = Stage::Idle;
        Progress::Done(Answer::Flushed)
    }

    /// Brings the running operation forward by one page, or says what has to be done first.
    pub fn step(&mut self) -> (progress: Progress)
        requires
            old(self).wf(),
        ensures
            final(self).wf(),
            old(self).stepped(*final(self), progress),
    {
        match &self.stage {
            Stage::Idle => Progress::Idle,
            Stage::Lookup { key, id, left } => {
                let (key, id, left) = (*key, *id, *left);
                self.step_lookup(key, id, left)
            },
            Stage::Opening { change } => {
                let change = *change;
                self.step_opening(change)
            },
            Stage::Opened { change } => {
                let change = *change;
                self.step_opened(change)
            },
            Stage::Cleared { change } => {
                let change = *change;
                self.step_cleared(change)
            },
            Stage::Descend { change, id, left } => {
                let (change, id, left) = (*change, *id, *left);
                if left > 0 {
                    self.step_descend(change, id, left)
                } else {
                    match change {
                        Change::Upsert { key, value } => self.step_put(key, value, id),
                        Change::Remove { key } => self.step_take(key, id),
                    }
                }
            },
            Stage::Right { key, leaf, right, page, left_separator, separator } => {
                let (key, leaf, right, left_separator, separator) = (
                    *key,
                    *leaf,
                    *right,
                    *left_separator,
                    *separator,
                );
                let page: Page = **page;
                self.step_right(key, leaf, right, page, left_separator, separator)
            },
            Stage::Parent { key, left_separator, separator, child } => {
                let (key, left_separator, separator, child) = (
                    *key,
                    *left_separator,
                    *separator,
                    *child,
                );
                if self.path.len() > 0 {
                    self.step_parent(key, left_separator, separator, child)
                } else {
                    self.step_root(key, left_separator, separator, child)
                }
            },
            Stage::Flush => self.step_flush(),
            Stage::FlushHeader => self.step_flush_header(),
            Stage::FlushSync => self.step_flush_sync(),
            Stage::FlushEnd => self.step_flush_end(),
        }
    }
}

/// Leaves the lower half of `merged` in a leaf, whose sibling is then page `right`, and returns
/// that page with the upper half.
fn halve_leaf(page: &mut Page, merged: &Vec<(u32, u32)>, right: u32) -> (upper: Box<Page>)
    requires
        page_fits(old(page)@),
        merged@.len() == MAX_ENTRIES + 1,
    ensures
        ({
            let mid = merged@.len() as int / 2;
            &&& final(page)@ == with_next(with_entries(old(page)@, merged@.take(mid)), right)
            &&& upper@ == with_next(
                with_entries(blank(MAGIC_LEAF, 0), merged@.skip(mid)),
                next_of(old(page)@),
            )
            &&& page_fits(final(page)@)
            &&& page_fits(upper@)
        }),
{
    let mid: usize = merged.len() / 2;
    let sibling: u32 = get_next(page);
    let ghost m = merged@;
    let mut upper: Page = [0u8;PAGE_LEN];
    init_page(&mut upper, MAGIC_LEAF, 0);
    fill_entries(&mut upper, &merged[mid..merged.len()]);
    set_next(&mut upper, sibling);
    fill_entries(page, &merged[0..mid]);
    set_next(page, right);
    proof {
        let p = old(page)@;
        assert(m.subrange(0, mid as int) =~= m.take(mid as int));
        assert(m.subrange(mid as int, m.len() as int) =~= m.skip(mid as int));
        lemma_with_entries(p, m.take(mid as int));
        lemma_with_next(with_entries(p, m.take(mid as int)), right);
        lemma_blank(MAGIC_LEAF, 0);
        lemma_with_entries(blank(MAGIC_LEAF, 0), m.skip(mid as int));
        lemma_with_next(with_entries(blank(MAGIC_LEAF, 0), m.skip(mid as int)), next_of(p));
    }
    Box::new(upper)
}

/// The entries of a page with one more among them.
fn merged_entries(page: &Page, count: usize, pos: usize, key: u32, value: u32) -> (merged: Vec<
    (u32, u32),
>)
    requires
        count == count_of(page@),
        count <= MAX_ENTRIES,
        pos <= count,
    ensures
        merged@ == entries_of(page@).insert(pos as int, (key, value)),
{
    proof {
        lemma_entries_len(page@);
    }
    let ghost e = entries_of(page@);
    let mut merged: Vec<(u32, u32)> = Vec::new();
    let mut slot: usize = 0;
    while slot < pos
        invariant
            count == count_of(page@) == e.len(),
            slot <= pos <= count <= MAX_ENTRIES,
            e == entries_of(page@),
            merged@ == e.take(slot as int),
        decreases pos - slot,
    {
        proof {
            lemma_entries_len(page@);
        }
        merged.push((get_key(page, slot), get_value(page, slot)));
        slot += 1;
        assert(merged@ =~= e.take(slot as int));
    }
    merged.push((key, value));
    assert(merged@ =~= e.take(slot as int).push((key, value)) + e.subrange(pos as int, slot as int));
    while slot < count
        invariant
            count == count_of(page@) == e.len(),
            pos <= slot <= count <= MAX_ENTRIES,
            e == entries_of(page@),
            merged@ == e.take(pos as int).push((key, value)) + e.subrange(pos as int, slot as int),
        decreases count - slot,
    {
        proof {
            lemma_entries_len(page@);
        }
        merged.push((get_key(page, slot), get_value(page, slot)));
        slot += 1;
        assert(merged@ =~= e.take(pos as int).push((key, value)) + e.subrange(
            pos as int,
            slot as int,
        ));
    }
    assert(merged@ =~= e.insert(pos as int, (key, value)));
    merged
}

/// While the header says clean, the tree pages are those on disk: an index that was flushed can
/// be opened again from them.
pub proof fn law_clean_is_on_disk(index: PkIndex, disk: Pages)
    requires
        index.wf(),
        index.head().clean,
        index.faithful(disk),
    ensures
        index.pages(disk) == disk,
        index.dirty() == Set::<u32>::empty(),
{
    assert(index.pages(disk) =~= disk);
}

/// What a flush comes to: the same pages, under a header that says clean, which page 0 gives
/// back.
pub proof fn law_flush(index: PkIndex, disk: Pages)
    requires
        index.at() is Flush,
    ensures
        index.outcome(disk) == Some(
            (index.pages(disk), Header { clean: true, ..index.head() }, Answer::Flushed),
        ),
        header_of(header_page(Header { clean: true, ..index.head() })) == Ok::<Header, Error>(
            Header { clean: true, ..index.head() },
        ),
{
    law_header_round_trip(Header { clean: true, ..index.head() });
}

/// A header that was left dirty on disk is read back as such: the index is rejected.
pub proof fn law_dirty_is_rejected(h: Header)
    ensures
        header_of(header_page(opened(h))) is Ok,
        !header_of(header_page(opened(h)))->Ok_0.clean,
{
    law_header_round_trip(opened(h));
}

} // verus!
