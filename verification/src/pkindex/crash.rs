//! What a crash leaves behind.
//!
//! The clean flag on disk is cleared, and that is made durable, before the first page changes, and
//! set again only when all pages are durable. So an index that opens clean is the index as it was
//! last flushed, whenever the crash came.

use super::header::{header_of, law_header_round_trip, Header};
use super::index::{law_clean_is_on_disk, PkIndex, Progress, Request, Stage};
use super::ops::opened;
use super::pool::lemma_written;
use super::tree::Pages;
use vstd::prelude::*;

verus! {

/// The index file, as far as a crash matters.
#[verifier::ext_equal]
pub struct IndexFile {
    /// Page 0 as it was last made durable.
    pub durable: Header,
    /// Page 0 as it was last written.
    pub written: Header,
    /// Tree pages were written since the last sync.
    pub unsynced: bool,
    /// The tree pages as they were last written.
    pub pages: Pages,
}

/// The file after what was asked for is done.
pub open spec fn performed(f: IndexFile, progress: Progress) -> IndexFile {
    match progress {
        Progress::Io(Request::Write { id, page }) => IndexFile {
            unsynced: true,
            pages: f.pages.insert(id, page@),
            ..f
        },
        Progress::Io(Request::WriteHeader { page }) => IndexFile {
            written: header_of(page@)->Ok_0,
            ..f
        },
        Progress::Io(Request::Sync) => IndexFile { durable: f.written, unsynced: false, ..f },
        _ => f,
    }
}

/// No page differs from the disk.
pub open spec fn all_written(index: PkIndex) -> bool {
    index.dirty() == Set::<u32>::empty()
}

/// A header that says clean has the pages that it vouches for behind it.
pub open spec fn vouched(index: PkIndex, f: IndexFile, h: Header) -> bool {
    h.clean ==> {
        &&& h == Header { clean: true, ..index.head() }
        &&& !f.unsynced
        &&& all_written(index)
    }
}

/// The file keeps up with the index: whichever page 0 a crash leaves, the last one that was made
/// durable or the last one that was written, it does not say clean without cause.
pub open spec fn guarded(index: PkIndex, f: IndexFile) -> bool {
    &&& index.wf()
    &&& index.faithful(f.pages)
    &&& vouched(index, f, f.durable)
    &&& vouched(index, f, f.written)
    &&& index.head().clean || !f.durable.clean && !f.written.clean
    &&& match index.at() {
        Stage::Opening { .. } => index.head().clean,
        Stage::Opened { .. } => index.head().clean && !f.written.clean,
        Stage::Cleared { .. } => !f.durable.clean && !f.written.clean,
        Stage::FlushHeader => !f.unsynced && all_written(index),
        Stage::FlushSync => f.written == index.head() && index.head().clean,
        Stage::FlushEnd => index.head().clean,
        _ => true,
    }
}

/// An index that was just opened, or just built and synced, is guarded.
pub proof fn law_guard_opened(index: PkIndex, h: Header, cache_pages: usize, pages: Pages)
    requires
        index.is_new(h, cache_pages),
        h.clean,
    ensures
        guarded(index, (IndexFile { durable: h, written: h, unsynced: false, pages })),
{
    assert(h == Header { clean: true, ..h });
}

/// `after` is the index with an operation started, whatever was running before.
pub open spec fn started(index: PkIndex, after: PkIndex) -> bool {
    &&& index.same_pages(after)
    &&& after.wf()
    &&& match after.at() {
        Stage::Lookup { .. } | Stage::Flush => true,
        Stage::Opening { .. } => index.head().clean,
        Stage::Descend { .. } => !index.head().clean,
        _ => false,
    }
}

/// The start of an operation leaves an index guarded, also where another one was abandoned.
pub proof fn law_guard_started(index: PkIndex, after: PkIndex, f: IndexFile)
    requires
        guarded(index, f),
        started(index, after),
    ensures
        guarded(after, f),
{
}

/// Where something that a step asked for was not done, the start of another operation finds the
/// index guarded all the same. A change that could not clear the flag on disk does not stop the
/// next one from clearing it.
pub proof fn law_guard_failed(
    index: PkIndex,
    stuck: PkIndex,
    request: Request,
    after: PkIndex,
    f: IndexFile,
)
    requires
        guarded(index, f),
        index.stepped(stuck, Progress::Io(request)),
        stuck.wf(),
        started(stuck, after),
    ensures
        guarded(after, f),
{
    assert(index.faithful(f.pages));
    assert(stuck.faithful(f.pages));
    lemma_guard_stuck(index, stuck, request, after, f);
}

proof fn lemma_guard_stuck(
    index: PkIndex,
    stuck: PkIndex,
    request: Request,
    after: PkIndex,
    f: IndexFile,
)
    requires
        guarded(index, f),
        index.moved(stuck, Progress::Io(request)),
        stuck.wf(),
        stuck.faithful(f.pages),
        started(stuck, after),
    ensures
        guarded(after, f),
{
    assert(after.faithful(f.pages));
}

/// A step that asks for nothing leaves an index guarded.
proof fn lemma_guard_inside(index: PkIndex, after: PkIndex, progress: Progress, f: IndexFile)
    requires
        guarded(index, f),
        index.moved(after, progress),
        after.wf(),
        after.faithful(f.pages),
        !(progress is Io),
    ensures
        guarded(after, f),
{
    if after.head().clean {
        lemma_clean_is_written(after);
    }
}

/// While the header says clean, no page differs from the disk.
proof fn lemma_clean_is_written(index: PkIndex)
    requires
        index.wf(),
        index.head().clean,
    ensures
        all_written(index),
{
    law_clean_is_on_disk(index, index.cached());
}

/// A step that asks for something leaves an index guarded, once that is done.
proof fn lemma_guard_io(index: PkIndex, after: PkIndex, request: Request, f: IndexFile)
    requires
        guarded(index, f),
        index.moved(after, Progress::Io(request)),
        after.wf(),
        after.faithful(f.pages),
    ensures
        guarded(after, performed(f, Progress::Io(request))),
{
    let g = performed(f, Progress::Io(request));
    match request {
        Request::Read { .. } => {},
        Request::Write { id, page } => {
            assert(index.dirty().contains(id));
            assert(index.dirty() != Set::<u32>::empty());
            assert(after.faithful(g.pages));
        },
        Request::WriteHeader { .. } => {
            law_header_round_trip(after.head());
            law_header_round_trip(opened(index.head()));
        },
        Request::Sync => {},
    }
}

/// A step leaves an index guarded, once what it asked for is done.
pub proof fn law_guard_step(index: PkIndex, after: PkIndex, progress: Progress, f: IndexFile)
    requires
        guarded(index, f),
        index.stepped(after, progress),
        after.wf(),
    ensures
        guarded(after, performed(f, progress)),
{
    assert(index.faithful(f.pages));
    assert(after.faithful(f.pages));
    match progress {
        Progress::Io(request) => lemma_guard_io(index, after, request, f),
        _ => lemma_guard_inside(index, after, progress, f),
    }
}

/// The word that a page is written leaves an index guarded.
pub proof fn law_guard_written(index: PkIndex, after: PkIndex, f: IndexFile, id: u32)
    requires
        guarded(index, f),
        index.cached().contains_key(id),
        f.pages.contains_key(id) && f.pages[id] == index.cached()[id],
        after.wf(),
        after.head() == index.head(),
        after.at() == index.at(),
        after.cached() == index.cached(),
        after.dirty() == index.dirty().remove(id),
    ensures
        guarded(after, f),
{
    lemma_written(f.pages, index.cached(), index.dirty(), id);
    assert(f.pages.insert(id, index.cached()[id]) =~= f.pages);
    if all_written(index) {
        assert(after.dirty() =~= Set::<u32>::empty());
    }
}

/// A page that was read leaves an index guarded.
pub proof fn law_guard_supplied(index: PkIndex, after: PkIndex, f: IndexFile)
    requires
        guarded(index, f),
        after.wf(),
        after.head() == index.head(),
        after.at() == index.at(),
        after.dirty() == index.dirty(),
        after.faithful(f.pages),
    ensures
        guarded(after, f),
{
}

/// Whenever a crash comes, an index that opens clean afterwards is the index as it was last
/// flushed: the header is that of the index, and all of its pages are durable.
pub proof fn law_crash(index: PkIndex, f: IndexFile, page0: Header)
    requires
        guarded(index, f),
        page0 == f.durable || page0 == f.written,
        page0.clean,
    ensures
        page0 == (Header { clean: true, ..index.head() }),
        !f.unsynced,
        index.pages(f.pages) == f.pages,
{
    assert(index.pages(f.pages) =~= f.pages);
}

} // verus!
