//! The primary key index, over a file in memory.

use std::collections::BTreeMap;

use breezydb::error::{Error, ErrorKind};
use breezydb::pkindex::builder::{Builder, PageRun, WRITE_BATCH_PAGES};
use breezydb::pkindex::bulk::BULK_FILL;
use breezydb::pkindex::header::Header;
use breezydb::pkindex::index::{Answer, PkIndex, Progress, Request, MAX_HEIGHT};
use breezydb::pkindex::page::{
    descend_slot, fill_entries, get_count, get_level, get_next, init_page, insert_at, leaf_slot,
    page_at, put_entry, remove_at, set_count, set_next, Page, MAGIC_HEAD, MAGIC_LEAF, MAGIC_NODE,
    MAX_ENTRIES, NO_PAGE, PAGE_LEN,
};

/// A file in memory that keeps count of what is done to it.
struct Disk {
    bytes: Vec<u8>,
    writes: Vec<u32>,
    syncs: usize,
}

impl Disk {
    fn new() -> Self {
        Disk { bytes: Vec::new(), writes: Vec::new(), syncs: 0 }
    }

    fn write(&mut self, id: u32, data: &[u8]) {
        let at = page_at(id) as usize;
        if self.bytes.len() < at + data.len() {
            self.bytes.resize(at + data.len(), 0);
        }
        self.bytes[at..at + data.len()].copy_from_slice(data);
        self.writes.push(id);
    }

    fn page(&self, id: u32) -> Page {
        let at = page_at(id) as usize;
        self.bytes[at..at + PAGE_LEN].try_into().unwrap()
    }

    fn write_run(&mut self, run: &PageRun) {
        assert_eq!(run.bytes.len() % PAGE_LEN, 0);
        self.write(run.first, &run.bytes);
    }
}

fn build(entries: &[(u32, u32)]) -> (PkIndex, Disk) {
    let mut disk = Disk::new();
    let mut builder = Builder::create(4096, 1);
    for &(key, frame) in entries {
        if let Some(run) = builder.push(key, frame).expect("push entry") {
            assert_eq!(run.bytes.len(), WRITE_BATCH_PAGES * PAGE_LEN);
            disk.write_run(&run);
        }
    }
    let (index, runs) = builder.finish(64);
    for run in &runs {
        disk.write_run(run);
    }
    disk.writes.clear();
    (index, disk)
}

fn run(index: &mut PkIndex, disk: &mut Disk) -> Answer {
    loop {
        match index.step() {
            Progress::More => {}
            Progress::Io(Request::Read { id }) => {
                let page = disk.page(id);
                assert!(index.supply(id, &page));
            }
            Progress::Io(Request::Write { id, page }) => {
                disk.write(id, &page[..]);
                assert!(index.written(id));
            }
            Progress::Io(Request::WriteHeader { page }) => disk.write(0, &page[..]),
            Progress::Io(Request::Sync) => disk.syncs += 1,
            Progress::Done(answer) => return answer,
            Progress::Damaged => panic!("the index is damaged"),
            Progress::Idle => panic!("nothing is running"),
        }
    }
}

fn lookup(index: &mut PkIndex, disk: &mut Disk, key: u32) -> Option<u32> {
    index.lookup(key);
    match run(index, disk) {
        Answer::Found(found) => found,
        other => panic!("a lookup came to {other:?}"),
    }
}

fn upsert(index: &mut PkIndex, disk: &mut Disk, key: u32, value: u32) -> bool {
    index.upsert(key, value).expect("upsert");
    match run(index, disk) {
        Answer::Upserted(fresh) => fresh,
        other => panic!("an upsert came to {other:?}"),
    }
}

fn remove(index: &mut PkIndex, disk: &mut Disk, key: u32) -> bool {
    index.remove(key);
    match run(index, disk) {
        Answer::Removed(hit) => hit,
        other => panic!("a removal came to {other:?}"),
    }
}

fn flush(index: &mut PkIndex, disk: &mut Disk) {
    index.flush();
    assert_eq!(run(index, disk), Answer::Flushed);
}

/// Deterministic scramble, so the tests do not depend on an rng.
fn scramble(i: u32, span: u32) -> u32 {
    i.wrapping_mul(2_654_435_761) % span
}

#[test]
fn test_lookup_across_three_levels() {
    // At a bulk fill of 357 this is 841 leaves, which needs two interior levels.
    let entries: Vec<(u32, u32)> = (0..300_000u32).map(|i| (i * 2 + 1, i / 7)).collect();
    let (mut index, mut disk) = build(&entries);

    assert_eq!(index.height(), 3);
    assert_eq!(index.entry_cnt(), 300_000);
    assert_eq!(index.key_bounds(), (1, 599_999));

    for &(key, frame) in &[
        entries[0],
        entries[BULK_FILL - 1],
        entries[BULK_FILL],
        entries[150_000],
        entries[entries.len() - 1],
    ] {
        assert_eq!(lookup(&mut index, &mut disk, key), Some(frame), "pk {key}");
    }

    // Below the tree, between two keys, and past the rightmost leaf.
    assert_eq!(lookup(&mut index, &mut disk, 0), None);
    assert_eq!(lookup(&mut index, &mut disk, 2), None);
    assert_eq!(lookup(&mut index, &mut disk, 1_000_000), None);
}

#[test]
fn test_single_leaf_index() {
    let (mut index, mut disk) = build(&[(7, 0), (9, 1), (11, 2)]);

    assert_eq!(index.height(), 1);
    assert_eq!(index.leaf_cnt(), 1);
    assert_eq!(lookup(&mut index, &mut disk, 9), Some(1));
    assert_eq!(lookup(&mut index, &mut disk, 8), None);
}

#[test]
fn test_upsert_repoints_without_growing() {
    let entries: Vec<(u32, u32)> = (0..10_000u32).map(|i| (i, i / 7)).collect();
    let (mut index, mut disk) = build(&entries);

    let pages = index.page_cnt();

    assert!(!upsert(&mut index, &mut disk, 500, 999));
    assert_eq!(lookup(&mut index, &mut disk, 500), Some(999));
    assert_eq!(index.entry_cnt(), 10_000);
    assert_eq!(index.page_cnt(), pages, "an update must not allocate");
}

#[test]
fn test_inserts_split_leaves_and_raise_the_root() {
    // One leaf, filled to BULK_FILL. Every insert past MAX_ENTRIES forces a split, and
    // enough of them push a new level above the root.
    let entries: Vec<(u32, u32)> = (0..BULK_FILL as u32).map(|i| (i * 1000, i)).collect();
    let (mut index, mut disk) = build(&entries);
    assert_eq!(index.height(), 1);

    // Fill the gaps between the bulk-loaded keys.
    let mut expected = 0u64;
    for i in 0..BULK_FILL as u32 {
        for step in 1..4u32 {
            assert!(upsert(&mut index, &mut disk, i * 1000 + step, i + step));
            expected += 1;
        }
    }

    assert!(index.height() >= 2, "the root should have been raised");
    assert_eq!(index.entry_cnt(), BULK_FILL as u64 + expected);

    for i in 0..BULK_FILL as u32 {
        assert_eq!(lookup(&mut index, &mut disk, i * 1000), Some(i));
        for step in 1..4u32 {
            assert_eq!(
                lookup(&mut index, &mut disk, i * 1000 + step),
                Some(i + step),
                "pk {}",
                i * 1000 + step
            );
        }
    }
}

#[test]
fn test_matches_a_btreemap_under_mixed_writes() {
    const SPAN: u32 = 40_000;
    let seed: Vec<(u32, u32)> = (0..8_000u32).map(|i| (i * 3, i)).collect();
    let (mut index, mut disk) = build(&seed);
    let mut oracle: BTreeMap<u32, u32> = seed.iter().copied().collect();

    for i in 0..60_000u32 {
        let key = scramble(i, SPAN);

        match i % 5 {
            0 => {
                let hit = remove(&mut index, &mut disk, key);
                assert_eq!(hit, oracle.remove(&key).is_some(), "remove {key}");
            }
            _ => {
                let fresh = upsert(&mut index, &mut disk, key, i);
                assert_eq!(fresh, oracle.insert(key, i).is_none(), "upsert {key}");
            }
        }
    }

    assert_eq!(index.entry_cnt(), oracle.len() as u64);

    for key in 0..SPAN {
        assert_eq!(
            lookup(&mut index, &mut disk, key),
            oracle.get(&key).copied(),
            "pk {key}"
        );
    }
}

#[test]
fn test_survives_a_reopen_after_flush() {
    let seed: Vec<(u32, u32)> = (0..20_000u32).map(|i| (i * 2, i)).collect();

    let (mut index, mut disk) = build(&seed);
    for i in 0..5_000u32 {
        upsert(&mut index, &mut disk, i * 2 + 1, i + 7);
    }
    remove(&mut index, &mut disk, 0);
    flush(&mut index, &mut disk);
    let height = index.height();
    drop(index);

    let mut reopened = PkIndex::open(&disk.page(0), 4096, 1, 64).ok().expect("reopen");

    assert_eq!(reopened.height(), height);
    assert_eq!(reopened.entry_cnt(), 24_999);
    assert_eq!(lookup(&mut reopened, &mut disk, 0), None);
    assert_eq!(lookup(&mut reopened, &mut disk, 4), Some(2));
    assert_eq!(lookup(&mut reopened, &mut disk, 4_001), Some(2_007));
}

#[test]
fn test_reject_index_left_dirty() {
    let (mut index, mut disk) = build(&[(1, 0), (2, 0)]);
    upsert(&mut index, &mut disk, 3, 1);
    drop(index); // no flush: this is what a crash looks like

    assert!(PkIndex::open(&disk.page(0), 4096, 1, 64)
        .err()
        .unwrap()
        .message()
        .starts_with("index was not closed cleanly"));
}

#[test]
fn test_reject_stale_index() {
    let (_, disk) = build(&[(1, 0), (2, 0)]);

    assert!(PkIndex::open(&disk.page(0), 8192, 2, 64)
        .err()
        .unwrap()
        .message()
        .starts_with("index is stale"));
}

#[test]
fn test_reject_unsorted_bulk_input() {
    let mut builder = Builder::create(4096, 1);
    builder.push(5, 0).expect("first key");

    assert!(builder.push(4, 1).err().unwrap().message().contains("is not sorted"));
    assert!(builder.push(5, 1).err().unwrap().message().starts_with("duplicate pk"));
}

// -- more of the index -------------------------------------------------------------------

#[test]
fn the_messages_of_a_rejected_index_are_exact() {
    let (_, disk) = build(&[(1, 0)]);

    let stale = PkIndex::open(&disk.page(0), 8192, 2, 64).err().unwrap();
    assert_eq!(
        stale.message(),
        "index is stale: built over 4096 bytes / 1 frames, source is 8192 bytes / 2 frames"
    );
    assert_eq!(stale.kind(), ErrorKind::Other);

    let mut page = disk.page(0);
    page[0] = b'L';
    let e = PkIndex::open(&page, 4096, 1, 64).err().unwrap();
    assert!(matches!(e, Error::NotAnIndex));
    assert_eq!(e.message(), "not a pk index file");

    let mut page = disk.page(0);
    page[8] = 3;
    let e = PkIndex::open(&page, 4096, 1, 64).err().unwrap();
    assert_eq!(e.message(), "index format version 3, expected 2");

    let mut page = disk.page(0);
    page[13] = 0x20;
    let e = PkIndex::open(&page, 4096, 1, 64).err().unwrap();
    assert_eq!(e.message(), "index page size 8192, expected 4096");

    let mut builder = Builder::create(4096, 1);
    builder.push(5, 0).expect("first key");
    let e = builder.push(4, 1).err().unwrap();
    assert_eq!(e.message(), "pk 4 arrived after 5, input is not sorted");
    let e = builder.push(5, 1).err().unwrap();
    assert_eq!(e.message(), "duplicate pk 5 in index build");
}

#[test]
fn a_refused_key_leaves_the_loader_as_it_was() {
    let mut builder = Builder::create(4096, 1);
    builder.push(5, 50).expect("first key");
    assert!(builder.push(5, 51).is_err());
    assert!(builder.push(6, 60).is_ok());

    let (mut index, runs) = builder.finish(64);
    let mut disk = Disk::new();
    for run in &runs {
        disk.write_run(run);
    }
    assert_eq!(index.entry_cnt(), 2);
    assert_eq!(lookup(&mut index, &mut disk, 5), Some(50));
    assert_eq!(lookup(&mut index, &mut disk, 6), Some(60));
}

#[test]
fn an_empty_index_has_a_page_to_land_on() {
    let (mut index, mut disk) = build(&[]);

    assert_eq!(index.height(), 1);
    assert_eq!(index.leaf_cnt(), 1);
    assert_eq!(index.entry_cnt(), 0);
    assert_eq!(index.key_bounds(), (0, 0));
    assert_eq!(index.page_cnt(), 2);
    assert_eq!(index.size_on_disk(), 8192);
    assert_eq!(lookup(&mut index, &mut disk, 0), None);

    assert!(!remove(&mut index, &mut disk, 77));
    assert!(upsert(&mut index, &mut disk, 77, 1));
    assert_eq!(index.key_bounds(), (77, 77));
    assert!(upsert(&mut index, &mut disk, 70, 2));
    assert!(upsert(&mut index, &mut disk, 90, 3));
    assert_eq!(index.key_bounds(), (70, 90));
    assert!(remove(&mut index, &mut disk, 90));
    assert_eq!(index.key_bounds(), (70, 90), "a removal never narrows the bounds");
    assert_eq!(lookup(&mut index, &mut disk, 90), None);
}

#[test]
fn the_clean_flag_is_cleared_before_the_first_change_and_only_then() {
    let (mut index, mut disk) = build(&[(1, 0), (2, 0)]);
    assert!(Header::decode(&disk.page(0)).ok().unwrap().clean);

    assert_eq!(lookup(&mut index, &mut disk, 1), Some(0));
    assert_eq!(disk.syncs, 0);

    upsert(&mut index, &mut disk, 3, 1);
    assert_eq!(disk.writes, [0]);
    assert_eq!(disk.syncs, 1);
    assert!(!Header::decode(&disk.page(0)).ok().unwrap().clean);

    upsert(&mut index, &mut disk, 4, 1);
    remove(&mut index, &mut disk, 1);
    assert_eq!(disk.writes, [0], "one header write per window");
    assert_eq!(disk.syncs, 1, "one sync per window");

    flush(&mut index, &mut disk);
    assert_eq!(disk.writes, [0, 1, 0], "pages before the header that vouches for them");
    assert_eq!(disk.syncs, 3);
    let header = Header::decode(&disk.page(0)).ok().unwrap();
    assert!(header.clean);
    assert_eq!(header.entry_cnt, 3);

    flush(&mut index, &mut disk);
    assert_eq!(disk.writes, [0, 1, 0, 0], "nothing has changed but the header is written");
}

#[test]
fn a_header_is_read_back_as_it_was_written() {
    let header = Header {
        root: 1,
        height: 2,
        first_leaf: 3,
        next_page: 4,
        leaf_cnt: 5,
        entry_cnt: 0x0102_0304_0506_0708,
        min_key: 6,
        max_key: u32::MAX,
        source_len: u64::MAX - 1,
        source_frame_cnt: 7,
        clean: true,
    };
    let page = header.encode();
    assert_eq!(page[0], MAGIC_HEAD);
    assert_eq!(page[8..16], [2, 0, 0, 0, 0, 0x10, 0, 0]);
    assert_eq!(page[64], 1);
    assert_eq!(Header::decode(&page).ok().unwrap(), header);
}

#[test]
fn siblings_chain_all_leaves_in_key_order() {
    let entries: Vec<(u32, u32)> = (0..2_000u32).map(|i| (i * 10, i)).collect();
    let (mut index, mut disk) = build(&entries);
    for i in 0..3_000u32 {
        upsert(&mut index, &mut disk, scramble(i, 20_000), i);
    }
    flush(&mut index, &mut disk);

    let mut leaf = Header::decode(&disk.page(0)).ok().unwrap().first_leaf;
    let mut leaves = 0;
    let mut keys: Vec<u32> = Vec::new();
    while leaf != NO_PAGE {
        let page = disk.page(leaf);
        assert_eq!((page[0], get_level(&page)), (MAGIC_LEAF, 0));
        for slot in 0..get_count(&page) {
            keys.push(u32::from_le_bytes(page[8 + 8 * slot..12 + 8 * slot].try_into().unwrap()));
        }
        leaves += 1;
        leaf = get_next(&page);
    }
    assert_eq!(leaves, index.leaf_cnt());
    assert_eq!(keys.len() as u64, index.entry_cnt());
    assert!(keys.windows(2).all(|w| w[0] < w[1]));
}

#[test]
fn a_small_pool_evicts_and_reads_back() {
    let entries: Vec<(u32, u32)> = (0..20_000u32).map(|i| (i, i + 1)).collect();
    let (_, mut disk) = build(&entries);
    let mut index = PkIndex::open(&disk.page(0), 4096, 1, 0).ok().unwrap();

    for i in 0..20_000u32 {
        // Every key once, in an order that jumps about.
        let key = i * 7919 % 20_000;
        assert!(!upsert(&mut index, &mut disk, key, key + 2));
    }
    let (reads, writes) = index.cache_stats();
    assert!(reads > 8, "more pages than the pool holds were read");
    assert!(writes > 0, "changed pages were written back");
    assert_eq!(disk.writes.len() as u64, writes + 1, "each write back and one header");

    for key in 0..20_000u32 {
        assert_eq!(lookup(&mut index, &mut disk, key), Some(key + 2));
    }
}

#[test]
fn a_pool_that_holds_everything_reads_every_page_once() {
    let entries: Vec<(u32, u32)> = (0..10_000u32).map(|i| (i, i)).collect();
    let (mut index, mut disk) = build(&entries);
    for key in 0..10_000u32 {
        lookup(&mut index, &mut disk, key);
    }
    // 29 leaves and the root.
    assert_eq!(index.cache_stats(), (30, 0));
}

#[test]
fn a_tree_of_the_ceiling_height_takes_no_upsert() {
    let (_, disk) = build(&[(1, 1)]);
    let mut header = Header::decode(&disk.page(0)).ok().unwrap();
    header.height = MAX_HEIGHT as u32;
    let mut index = PkIndex::open(&header.encode(), 4096, 1, 64).ok().unwrap();

    let e = index.upsert(2, 2).err().unwrap();
    assert!(matches!(e, Error::HeightCeiling));
    assert_eq!(e.message(), "pk index exceeded its height ceiling");
    assert!(matches!(index.step(), Progress::Idle));
}

#[test]
fn an_abandoned_operation_is_forgotten() {
    let (mut index, mut disk) = build(&[(1, 10), (2, 20)]);
    index.lookup(1);
    assert!(matches!(index.step(), Progress::Io(Request::Read { id: 1 })));
    // The read failed: the caller turns to another operation.
    assert_eq!(lookup(&mut index, &mut disk, 2), Some(20));
    assert!(matches!(index.step(), Progress::Idle));
}

#[test]
fn a_clean_flag_that_could_not_be_cleared_is_cleared_by_the_next_change() {
    let (mut index, mut disk) = build(&[(1, 10), (2, 20)]);
    // The header write fails, then the one after it is not made durable.
    index.upsert(3, 30).expect("upsert");
    assert!(matches!(index.step(), Progress::Io(Request::WriteHeader { .. })));
    index.remove(1);
    match index.step() {
        Progress::Io(Request::WriteHeader { page }) => disk.write(0, &page[..]),
        _ => panic!("the flag is still to be cleared"),
    }
    assert!(!Header::decode(&disk.page(0)).ok().unwrap().clean);
    assert!(matches!(index.step(), Progress::Io(Request::Sync)));

    disk.writes.clear();
    assert_eq!(lookup(&mut index, &mut disk, 1), Some(10));
    assert!(upsert(&mut index, &mut disk, 3, 30));
    assert_eq!((disk.writes.as_slice(), disk.syncs), ([0].as_slice(), 1));
    assert!(upsert(&mut index, &mut disk, 4, 40));
    assert_eq!((disk.writes.as_slice(), disk.syncs), ([0].as_slice(), 1), "durable by now");
}

/// The pages that a lookup reads.
fn reads(index: &mut PkIndex, disk: &Disk, key: u32) -> Vec<u32> {
    let mut ids = Vec::new();
    index.lookup(key);
    loop {
        match index.step() {
            Progress::More => {}
            Progress::Io(Request::Read { id }) => {
                ids.push(id);
                assert!(index.supply(id, &disk.page(id)));
            }
            Progress::Done(Answer::Found(found)) => {
                assert_eq!(found, Some(key));
                return ids;
            }
            _ => panic!("a lookup reads and finds"),
        }
    }
}

#[test]
fn the_clock_spares_pages_that_were_used() {
    let fill = BULK_FILL as u32;
    let entries: Vec<(u32, u32)> = (0..20 * fill).map(|i| (i, i)).collect();
    let (_, disk) = build(&entries);
    let mut index = PkIndex::open(&disk.page(0), 4096, 1, 8).ok().unwrap();
    let mut leaf = |n: u32| reads(&mut index, &disk, (n - 1) * fill);

    // The root is page 21. With it, seven leaves fill the pool.
    assert_eq!(leaf(1), [21, 1]);
    for n in 2..=7 {
        assert_eq!(leaf(n), [n]);
    }
    assert_eq!(leaf(8), [8], "all were used: the hand comes round to the root");
    assert_eq!(leaf(8), [21], "leaf 1 was not used since, and leaves");
    assert_eq!(leaf(2), []);
    assert_eq!(leaf(1), [1], "leaf 2 was used since, so leaf 3 leaves");
    assert_eq!(leaf(2), []);
    assert_eq!(leaf(3), [3], "leaf 4 leaves");
    assert_eq!(leaf(5), []);
    assert_eq!(leaf(4), [4], "leaf 5 was used since, so leaf 6 leaves");
    assert_eq!(leaf(5), []);
    assert_eq!(leaf(6), [6]);
}

#[test]
fn a_bulk_load_writes_its_header_last() {
    for count in [0u32, 1, 1000, 60_000] {
        let mut builder = Builder::create(4096, 1);
        let mut firsts = Vec::new();
        for key in 0..count {
            if let Some(run) = builder.push(key, 0).expect("push entry") {
                firsts.push(run.first);
            }
        }
        let (_, runs) = builder.finish(64);
        firsts.extend(runs.iter().map(|run| run.first));
        assert_eq!(firsts.pop(), Some(0));
        assert!(firsts.iter().all(|&first| first > 0));
        assert_eq!(runs[runs.len() - 1].bytes.len(), PAGE_LEN);
    }
}

#[test]
fn a_loaded_index_has_the_least_height_for_its_leaves() {
    let fill = BULK_FILL as u32;
    for (count, leaves, height) in [
        (0, 1, 1),
        (1, 1, 1),
        (fill, 1, 1),
        (fill + 1, 2, 2),
        (fill * fill, fill, 2),
        (fill * fill + 1, fill + 1, 3),
    ] {
        let entries: Vec<(u32, u32)> = (0..count).map(|i| (i * 3 + 1, i)).collect();
        let (mut index, mut disk) = build(&entries);
        assert_eq!((index.leaf_cnt(), index.height()), (leaves, height), "{count} entries");
        assert_eq!(index.entry_cnt(), count as u64);
        let bounds = if count == 0 { (0, 0) } else { (1, count * 3 - 2) };
        assert_eq!(index.key_bounds(), bounds);
        for &(key, value) in entries.iter().step_by(1009) {
            assert_eq!(lookup(&mut index, &mut disk, key), Some(value));
            assert_eq!(lookup(&mut index, &mut disk, key + 1), None);
        }
        assert!(PkIndex::open(&disk.page(0), 4096, 1, 8).is_ok(), "born clean");
    }
}

#[test]
fn a_page_that_nobody_waits_for_is_not_taken_twice() {
    let (mut index, mut disk) = build(&[(1, 10)]);
    assert_eq!(lookup(&mut index, &mut disk, 1), Some(10));
    let page = disk.page(1);
    assert!(!index.supply(1, &page));
    assert!(!index.written(9));
    assert_eq!(index.cache_stats(), (1, 0));
}

#[test]
fn a_damaged_parent_is_reported() {
    // Two leaves full to the brim under a root that claims to have no entry.
    let mut disk = Disk::new();
    let mut leaf: Page = [0; PAGE_LEN];
    init_page(&mut leaf, MAGIC_LEAF, 0);
    let full: Vec<(u32, u32)> = (0..MAX_ENTRIES as u32).map(|i| (i * 2, i)).collect();
    fill_entries(&mut leaf, &full);
    disk.write(1, &leaf);
    let mut root: Page = [0; PAGE_LEN];
    init_page(&mut root, MAGIC_NODE, 1);
    put_entry(&mut root, 0, 0, 1);
    set_count(&mut root, 0);
    disk.write(2, &root);
    let header = Header {
        root: 2,
        height: 2,
        first_leaf: 1,
        next_page: 3,
        leaf_cnt: 1,
        entry_cnt: MAX_ENTRIES as u64,
        min_key: 0,
        max_key: 1020,
        source_len: 4096,
        source_frame_cnt: 1,
        clean: true,
    };
    let mut index = PkIndex::open(&header.encode(), 4096, 1, 64).ok().unwrap();
    index.upsert(1, 1).expect("upsert");
    loop {
        match index.step() {
            Progress::Io(Request::Read { id }) => {
                let page = disk.page(id);
                index.supply(id, &page);
            }
            Progress::Damaged => break,
            Progress::Done(answer) => panic!("came to {answer:?}"),
            _ => {}
        }
    }
    assert!(matches!(index.step(), Progress::Idle));
}

#[test]
fn pages_hold_their_entries_in_order() {
    let mut page: Page = [7; PAGE_LEN];
    init_page(&mut page, MAGIC_LEAF, 0);
    assert_eq!((get_count(&page), get_next(&page)), (0, NO_PAGE));
    assert_eq!(leaf_slot(&page, 0, 5), Err(0));

    insert_at(&mut page, 0, 0, 20, 2);
    insert_at(&mut page, 1, 0, 10, 1);
    insert_at(&mut page, 2, 2, 30, 3);
    assert_eq!(get_count(&page), 3);
    assert_eq!(leaf_slot(&page, 3, 10), Ok(0));
    assert_eq!(leaf_slot(&page, 3, 30), Ok(2));
    assert_eq!(leaf_slot(&page, 3, 25), Err(2));
    assert_eq!(leaf_slot(&page, 3, 31), Err(3));

    remove_at(&mut page, 3, 1);
    assert_eq!(get_count(&page), 2);
    assert_eq!(leaf_slot(&page, 2, 20), Err(1));
    assert_eq!(leaf_slot(&page, 2, 30), Ok(1));

    set_next(&mut page, 9);
    assert_eq!(page[4..8], [9, 0, 0, 0]);
}

#[test]
fn a_descent_goes_to_the_last_child_at_or_below_the_key() {
    let mut page: Page = [0; PAGE_LEN];
    init_page(&mut page, MAGIC_NODE, 1);
    fill_entries(&mut page, &[(100, 1), (200, 2), (300, 3)]);
    assert_eq!(descend_slot(&page, 3, 0), 0, "below the whole subtree");
    assert_eq!(descend_slot(&page, 3, 199), 0);
    assert_eq!(descend_slot(&page, 3, 200), 1);
    assert_eq!(descend_slot(&page, 3, 299), 1);
    assert_eq!(descend_slot(&page, 3, u32::MAX), 2);
}

/// The map that an index on disk holds, if it can be opened by this page 0.
fn reopened(page0: &Page, disk: &Disk, keys: u32) -> Option<BTreeMap<u32, u32>> {
    let mut index = PkIndex::open(page0, 4096, 1, 64).ok()?;
    let mut copy = Disk { bytes: disk.bytes.clone(), writes: Vec::new(), syncs: 0 };
    let mut map = BTreeMap::new();
    for key in 0..keys {
        if let Some(value) = lookup(&mut index, &mut copy, key) {
            map.insert(key, value);
        }
    }
    Some(map)
}

#[test]
fn an_index_that_opens_clean_after_a_crash_is_the_one_that_was_flushed() {
    let entries: Vec<(u32, u32)> = (0..40u32).map(|i| (i * 2, i)).collect();
    let (mut index, mut disk) = build(&entries);
    let mut flushed: BTreeMap<u32, u32> = entries.iter().copied().collect();
    let mut now = flushed.clone();
    let mut durable = disk.page(0);
    let (mut clean, mut dirty) = (0, 0);

    for round in 0..12u32 {
        match round % 4 {
            0 | 1 => {
                index.upsert(round * 3, 1000 + round).expect("upsert");
                now.insert(round * 3, 1000 + round);
            }
            2 => {
                index.remove(round);
                now.remove(&round);
            }
            _ => index.flush(),
        }
        loop {
            let done = match index.step() {
                Progress::Io(Request::Read { id }) => {
                    let page = disk.page(id);
                    index.supply(id, &page);
                    false
                }
                Progress::Io(Request::Write { id, page }) => {
                    disk.write(id, &page[..]);
                    index.written(id);
                    false
                }
                Progress::Io(Request::WriteHeader { page }) => {
                    disk.write(0, &page[..]);
                    false
                }
                Progress::Io(Request::Sync) => {
                    durable = disk.page(0);
                    false
                }
                Progress::Done(answer) => {
                    if answer == Answer::Flushed {
                        flushed = now.clone();
                    }
                    true
                }
                Progress::More => false,
                Progress::Damaged | Progress::Idle => panic!("the operation got lost"),
            };
            // The machine could stop here, with either page 0 on disk.
            for page0 in [durable, disk.page(0)] {
                match reopened(&page0, &disk, 100) {
                    Some(map) => {
                        clean += 1;
                        assert!(map == flushed || map == now);
                    }
                    None => dirty += 1,
                }
            }
            if done {
                break;
            }
        }
        if round % 4 != 3 {
            let page0 = disk.page(0);
            assert!(reopened(&page0, &disk, 100).is_none(), "changed and not flushed");
        }
    }
    assert!(clean > 0 && dirty > 0);
}

#[test]
fn an_index_never_gets_high() {
    // Ascending inserts split the rightmost leaf again and again.
    let (mut index, mut disk) = build(&[]);
    for key in 0..200_000u32 {
        assert!(upsert(&mut index, &mut disk, key, key));
    }
    assert_eq!(index.height(), 3);
    assert_eq!(index.entry_cnt(), 200_000);
    assert_eq!(lookup(&mut index, &mut disk, 123_456), Some(123_456));
}
