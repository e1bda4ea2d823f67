//! The external sort, over a spill file in memory.

use breezydb::extsort::{Chunk, DrainStep, EntrySorter, IO_CHUNK, MIN_BUDGET_ENTRIES};
use breezydb::heap::MinHeap;

/// A spill file in memory, which is there from the first write on.
struct Spill(Option<Vec<u8>>);

impl Spill {
    fn write(&mut self, chunk: Chunk) {
        let file = self.0.get_or_insert_with(Vec::new);
        let at = chunk.at as usize;
        if file.len() < at + chunk.bytes.len() {
            file.resize(at + chunk.bytes.len(), 0);
        }
        file[at..at + chunk.bytes.len()].copy_from_slice(&chunk.bytes);
    }

    fn is_there(&self) -> bool {
        self.0.is_some()
    }
}

fn push(sorter: &mut EntrySorter, spill: &mut Spill, key: u32, value: u32) {
    while let Some(chunk) = sorter.push(key, value) {
        spill.write(chunk);
    }
}

/// Returns the sorted entries and how many runs the drain merged.
fn collect(mut sorter: EntrySorter, spill: &mut Spill) -> (Vec<(u32, u32)>, usize) {
    while let Some(chunk) = sorter.settle() {
        spill.write(chunk);
    }
    let mut drain = sorter.drain();
    let mut out = Vec::new();
    loop {
        match drain.step() {
            DrainStep::Read { at, len } => {
                let file = spill.0.as_ref().expect("spill file after a flushed run");
                let at = at as usize;
                assert!(drain.supply(&file[at..at + len]));
            }
            DrainStep::Emit { key, value } => out.push((key, value)),
            DrainStep::Done { runs } => {
                spill.0 = None;
                return (out, runs);
            }
        }
    }
}

/// Deterministic shuffle, so the test does not depend on an rng.
fn scrambled(count: u32) -> Vec<(u32, u32)> {
    (0..count).map(|i| (i.wrapping_mul(2_654_435_761) % count, i)).collect()
}

#[test]
fn test_sorts_in_memory_without_spilling() {
    let mut spill = Spill(None);
    let mut sorter = EntrySorter::new(64 * 1024 * 1024);

    for &(key, value) in &[(9u32, 1u32), (3, 2), (7, 3), (1, 4)] {
        push(&mut sorter, &mut spill, key, value);
    }
    assert!(!spill.is_there(), "no spill file for an in-memory sort");

    let (sorted, runs) = collect(sorter, &mut spill);

    assert_eq!(runs, 0);
    assert_eq!(sorted, vec![(1, 4), (3, 2), (7, 3), (9, 1)]);
    assert!(!spill.is_there(), "no spill file for an in-memory sort");
}

#[test]
fn test_merges_spilled_runs() {
    let mut spill = Spill(None);

    // The budget floor is 4 * IO_CHUNK entries, so push well past it to force runs.
    let entries = scrambled(MIN_BUDGET_ENTRIES as u32 * 5 + 17);
    let mut sorter = EntrySorter::new(0);
    for &(key, value) in &entries {
        push(&mut sorter, &mut spill, key, value);
    }
    assert!(spill.is_there());
    let (sorted, runs) = collect(sorter, &mut spill);
    assert!(runs >= 6, "expected several runs, got {runs}");

    let mut want = entries;
    want.sort_by_key(|&(key, _)| key);

    assert_eq!(sorted.len(), want.len());
    assert!(sorted.windows(2).all(|w| w[0].0 <= w[1].0));
    assert_eq!(
        sorted.iter().map(|&(k, _)| k).collect::<Vec<_>>(),
        want.iter().map(|&(k, _)| k).collect::<Vec<_>>()
    );
    assert!(!spill.is_there(), "spill file removed on drain");
}

#[test]
fn test_empty_sorter() {
    let mut spill = Spill(None);
    let sorter = EntrySorter::new(1024);

    assert_eq!(collect(sorter, &mut spill), (Vec::new(), 0));
}

#[test]
fn a_drain_gives_back_every_entry_that_was_pushed() {
    // Keys come several times, so that values tell whether any entry was lost or doubled.
    let mut spill = Spill(None);
    let mut sorter = EntrySorter::new(0);
    let count = MIN_BUDGET_ENTRIES as u32 * 2 + 5;
    for i in 0..count {
        push(&mut sorter, &mut spill, i % 1000, i);
    }
    let (mut sorted, runs) = collect(sorter, &mut spill);
    assert_eq!(runs, 3);
    assert!(sorted.windows(2).all(|w| w[0].0 <= w[1].0));

    let mut want: Vec<(u32, u32)> = (0..count).map(|i| (i % 1000, i)).collect();
    want.sort();
    sorted.sort();
    assert_eq!(sorted, want);
}

#[test]
fn runs_go_out_sorted_and_in_chunks() {
    let mut sorter = EntrySorter::new(0);
    for i in 0..MIN_BUDGET_ENTRIES as u32 - 1 {
        assert!(sorter.push(u32::MAX - i, i).is_none());
    }
    assert!(sorter.push(5, 6).is_none(), "the buffer takes one more");
    assert_eq!(sorter.spill_len(), 0);

    let first = sorter.push(1, 2).expect("first chunk");
    assert_eq!((first.at, first.bytes.len()), (0, 8 * IO_CHUNK));
    assert_eq!(first.bytes[0..8], [5, 0, 0, 0, 6, 0, 0, 0]);
    let second = sorter.push(1, 2).expect("second chunk");
    assert_eq!((second.at, second.bytes.len()), (8 * IO_CHUNK as u64, 8 * IO_CHUNK));
    assert!(sorter.push(1, 2).is_some());
    let last = sorter.push(1, 2).expect("last chunk");
    assert_eq!(last.bytes[8 * IO_CHUNK - 8..8 * IO_CHUNK - 4], u32::MAX.to_le_bytes());
    assert!(sorter.push(1, 2).is_none(), "the run is complete, and the entry is in");
    assert_eq!(sorter.spill_len(), 8 * MIN_BUDGET_ENTRIES as u64);

    let rest = sorter.settle().expect("the last entry");
    assert_eq!(rest.at, 8 * MIN_BUDGET_ENTRIES as u64);
    assert_eq!(rest.bytes, vec![1, 0, 0, 0, 2, 0, 0, 0]);
    assert!(sorter.settle().is_none());
    assert!(sorter.settle().is_none(), "an empty buffer makes no run");
    assert_eq!(sorter.spill_len(), 8 * MIN_BUDGET_ENTRIES as u64 + 8);
}

#[test]
fn a_set_of_exactly_the_budget_stays_in_memory() {
    let mut spill = Spill(None);
    let mut sorter = EntrySorter::new(8 * MIN_BUDGET_ENTRIES);
    let entries = scrambled(MIN_BUDGET_ENTRIES as u32);
    for &(key, value) in &entries {
        push(&mut sorter, &mut spill, key, value);
    }
    assert!(sorter.settle().is_none());
    assert!(!spill.is_there(), "everything fits in the budget");

    let (sorted, runs) = collect(sorter, &mut spill);
    assert_eq!(runs, 0);
    assert_eq!(sorted.len(), MIN_BUDGET_ENTRIES);
    assert!(sorted.windows(2).all(|w| w[0].0 <= w[1].0));
    assert!(!spill.is_there(), "everything fits in the budget");
}

#[test]
fn one_entry_over_the_budget_makes_two_runs() {
    let mut spill = Spill(None);
    let mut sorter = EntrySorter::new(8 * MIN_BUDGET_ENTRIES);
    for i in 0..MIN_BUDGET_ENTRIES as u32 + 1 {
        push(&mut sorter, &mut spill, u32::MAX - i, i);
    }
    let (sorted, runs) = collect(sorter, &mut spill);
    assert_eq!(runs, 2);
    assert_eq!(sorted[0], (u32::MAX - MIN_BUDGET_ENTRIES as u32, MIN_BUDGET_ENTRIES as u32));
    assert_eq!(sorted[MIN_BUDGET_ENTRIES], (u32::MAX, 0));
}

#[test]
fn the_budget_has_a_floor() {
    for (budget, takes) in [
        (0, MIN_BUDGET_ENTRIES),
        (8 * MIN_BUDGET_ENTRIES, MIN_BUDGET_ENTRIES),
        (8 * (MIN_BUDGET_ENTRIES + 1), MIN_BUDGET_ENTRIES + 1),
    ] {
        let mut sorter = EntrySorter::new(budget);
        for i in 0..takes as u32 {
            assert!(sorter.push(i, i).is_none());
        }
        assert!(sorter.push(0, 0).is_some(), "one more than the budget");
    }
}

#[test]
fn a_drain_takes_no_bytes_that_it_did_not_ask_for() {
    let mut spill = Spill(None);
    let mut sorter = EntrySorter::new(0);
    for i in 0..MIN_BUDGET_ENTRIES as u32 + 1 {
        push(&mut sorter, &mut spill, i, i);
    }
    while let Some(chunk) = sorter.settle() {
        spill.write(chunk);
    }
    let mut drain = sorter.drain();
    assert!(!drain.supply(&[0; 3]));
    let step = drain.step();
    assert_eq!(step, DrainStep::Read { at: 0, len: 8 * IO_CHUNK });
    assert!(!drain.supply(&[0; 8]));
    assert_eq!(drain.step(), step, "it asks again");
}

#[test]
fn a_heap_hands_out_the_smallest_pair_first() {
    let mut heap = MinHeap::new();
    assert_eq!(heap.pop(), None);
    for pair in [(5, 1), (3, 9), (3, 2), (8, 0), (3, 4), (1, 7)] {
        heap.push(pair);
    }
    let mut out = Vec::new();
    while let Some(pair) = heap.pop() {
        out.push(pair);
    }
    assert_eq!(out, vec![(1, 7), (3, 2), (3, 4), (3, 9), (5, 1), (8, 0)]);
}
