//! Bounded-memory sort for `(pk, frame_idx)` pairs.
//!
//! The B+tree bulk loader needs its keys in ascending order, but the scan produces them in frame
//! order. Sorting the whole set in memory is what the on-disk index exists to avoid, so entries
//! are buffered up to a budget, sorted, spilled as a run, and k-way merged back out on drain.
//!
//! If everything fits in the budget nothing is ever spilled and the merge degenerates into
//! iterating the buffer.
//!
//! The sorter does no I/O of its own: it hands out what is to be written to the spill file, and
//! asks for what is to be read from it.

use crate::data::util::u32_from_pos;
use crate::heap::MinHeap;
use crate::le::{entries_bytes, entries_in, entry_bytes, le32, le32_bytes, lemma_entries_in};
use vstd::multiset::Multiset;
use vstd::prelude::*;

verus! {

pub const ENTRY_LEN: usize = 8;

/// Entries moved per read/write against the spill file. At 8 bytes each this is a 64 kB buffer
/// per run, so merge memory is `runs * 64 kB`.
pub const IO_CHUNK: usize = 8 * 1024;

pub const MIN_BUDGET_ENTRIES: usize = 4 * IO_CHUNK;

/// The keys do not descend.
pub open spec fn sorted(s: Seq<(u32, u32)>) -> bool {
    forall|i: int, j: int| 0 <= i <= j < s.len() ==> s[i].0 <= s[j].0
}

/// All entries of several sequences.
pub open spec fn total(runs: Seq<Seq<(u32, u32)>>) -> Multiset<(u32, u32)>
    decreases runs.len(),
{
    if runs.len() == 0 {
        Multiset::empty()
    } else {
        total(runs.drop_last()).add(runs.last().to_multiset())
    }
}

/// With one sequence replaced, its entries are gone and those of the new one are there.
proof fn lemma_total_update(runs: Seq<Seq<(u32, u32)>>, i: int, new: Seq<(u32, u32)>)
    requires
        0 <= i < runs.len(),
    ensures
        total(runs.update(i, new)).add(runs[i].to_multiset()) == total(runs).add(
            new.to_multiset(),
        ),
    decreases runs.len(),
{
    let after = runs.update(i, new);
    if i < runs.len() - 1 {
        assert(after.drop_last() =~= runs.drop_last().update(i, new));
        lemma_total_update(runs.drop_last(), i, new);
        assert(total(after).add(runs[i].to_multiset()) =~= total(after.drop_last()).add(
            runs[i].to_multiset(),
        ).add(runs.last().to_multiset()));
        assert(total(runs).add(new.to_multiset()) =~= total(runs.drop_last()).add(
            new.to_multiset(),
        ).add(runs.last().to_multiset()));
    } else {
        assert(after.drop_last() =~= runs.drop_last());
        assert(total(after).add(runs[i].to_multiset()) =~= total(runs).add(new.to_multiset()));
    }
}

/// An entry of all sequences is an entry of one of them.
proof fn lemma_total_has(runs: Seq<Seq<(u32, u32)>>, e: (u32, u32)) -> (i: int)
    requires
        total(runs).count(e) > 0,
    ensures
        0 <= i < runs.len(),
        runs[i].contains(e),
    decreases runs.len(),
{
    broadcast use vstd::seq_lib::to_multiset_contains;

    if runs.last().to_multiset().count(e) > 0 {
        runs.len() - 1
    } else {
        lemma_total_has(runs.drop_last(), e)
    }
}

/// One sequence less its first entry: all entries are the others.
proof fn lemma_total_first(runs: Seq<Seq<(u32, u32)>>, i: int)
    requires
        0 <= i < runs.len(),
        runs[i].len() > 0,
    ensures
        total(runs.update(i, runs[i].skip(1))) == total(runs).remove(runs[i][0]),
        total(runs).count(runs[i][0]) > 0,
{
    broadcast use {vstd::seq_lib::to_multiset_remove, vstd::seq_lib::to_multiset_contains};

    let first = runs[i][0];
    let rest = runs[i].skip(1);
    assert(rest =~= runs[i].remove(0));
    lemma_total_update(runs, i, rest);
    let after = total(runs.update(i, rest));
    let m = runs[i].to_multiset();
    assert(runs[i].contains(first));
    assert(m =~= rest.to_multiset().insert(first));
    assert forall|e: (u32, u32)| after.count(e) == #[trigger] total(runs).remove(first).count(e) by {
        assert(after.add(m).count(e) == total(runs).add(rest.to_multiset()).count(e));
    }
    assert(after =~= total(runs).remove(first));
    assert(after.add(m).count(first) == total(runs).add(rest.to_multiset()).count(first));
}

/// Empty sequences have no entries.
proof fn lemma_total_empty(runs: Seq<Seq<(u32, u32)>>)
    requires
        forall|i: int| 0 <= i < runs.len() ==> (#[trigger] runs[i]).len() == 0,
    ensures
        total(runs) == Multiset::<(u32, u32)>::empty(),
    decreases runs.len(),
{
    if runs.len() > 0 {
        lemma_total_empty(runs.drop_last());
        assert(runs.last() =~= Seq::empty());
        lemma_empty_multiset(runs.last());
    }
    assert(total(runs) =~= Multiset::<(u32, u32)>::empty());
}

proof fn lemma_empty_multiset(s: Seq<(u32, u32)>)
    requires
        s.len() == 0,
    ensures
        s.to_multiset() == Multiset::<(u32, u32)>::empty(),
{
    broadcast use vstd::seq_lib::group_to_multiset_ensures;

    assert(s.to_multiset().len() == 0);
    assert(s.to_multiset() =~= Multiset::<(u32, u32)>::empty());
}

/// Calls `slice::sort_unstable_by_key` with the first component for the key: afterwards the
/// same entries are there, in an order in which the keys do not descend. Which of two entries
/// with one key comes first is left open.
#[verifier::external_body]
fn sort_by_key(entries: &mut Vec<(u32, u32)>)
    ensures
        final(entries)@.to_multiset() == old(entries)@.to_multiset(),
        sorted(final(entries)@),
{
    entries.sort_unstable_by_key(|&(key, _)| key);
}

/// The spill file after `bytes` were written at `at`.
pub open spec fn written(file: Seq<u8>, at: int, bytes: Seq<u8>) -> Seq<u8> {
    Seq::new(
        if at + bytes.len() > file.len() {
            (at + bytes.len()) as nat
        } else {
            file.len()
        },
        |i: int|
            if at <= i < at + bytes.len() {
                bytes[i - at]
            } else if i < file.len() {
                file[i]
            } else {
                0u8
            },
    )
}

/// Bytes for the spill file.
pub struct Chunk {
    pub at: u64,
    pub bytes: Vec<u8>,
}

pub struct EntrySorter {
    budget: usize,
    buf: Vec<(u32, u32)>,
    /// How many entries of the buffer were handed out for the run that is being spilled.
    done: usize,
    spilling: bool,
    spill_end: u64,
    /// `(byte offset, entry count)` per spilled run.
    runs: Vec<(u64, u64)>,
}

/// The entries of a run in the spill file.
pub open spec fn run_in(file: Seq<u8>, run: (u64, u64)) -> Seq<(u32, u32)> {
    entries_in(file.subrange(run.0 as int, run.0 + 8 * run.1))
}

/// The entries of all runs in the spill file.
pub open spec fn runs_in(file: Seq<u8>, runs: Seq<(u64, u64)>) -> Seq<Seq<(u32, u32)>> {
    Seq::new(runs.len(), |i: int| run_in(file, runs[i]))
}

/// A write behind the runs leaves them as they are.
proof fn lemma_write_behind(file: Seq<u8>, runs: Seq<(u64, u64)>, end: int, at: int, bytes: Seq<u8>)
    requires
        end <= at,
        end <= file.len(),
        forall|i: int| 0 <= i < runs.len() ==> (#[trigger] runs[i]).0 + 8 * runs[i].1 <= end,
    ensures
        runs_in(written(file, at, bytes), runs) == runs_in(file, runs),
{
    let after = written(file, at, bytes);
    assert forall|i: int| 0 <= i < runs.len() implies run_in(after, #[trigger] runs[i]) == run_in(
        file,
        runs[i],
    ) by {
        let r = runs[i];
        assert(after.subrange(r.0 as int, r.0 + 8 * r.1) =~= file.subrange(
            r.0 as int,
            r.0 + 8 * r.1,
        ));
    }
    assert(runs_in(after, runs) =~= runs_in(file, runs));
}

impl EntrySorter {
    pub closed spec fn wf(&self) -> bool {
        &&& self.budget >= MIN_BUDGET_ENTRIES
        &&& self.buf@.len() <= self.budget
        &&& self.done <= self.buf@.len()
        &&& self.done > 0 ==> self.spilling
        &&& self.spilling ==> sorted(self.buf@) && self.buf@.len() > 0
        &&& self.spill_end + 8 * self.buf@.len() <= u64::MAX || !self.spilling
        &&& forall|i: int|
            0 <= i < self.runs@.len() ==> (#[trigger] self.runs@[i]).0 + 8 * self.runs@[i].1
                <= self.spill_end
    }

    /// How many entries the buffer takes.
    pub closed spec fn limit(&self) -> nat {
        self.budget as nat
    }

    /// How many entries are in the buffer.
    pub closed spec fn buffered(&self) -> nat {
        self.buf@.len()
    }

    /// How long the spill file is.
    pub closed spec fn spilled(&self) -> nat {
        self.spill_end as nat
    }

    /// How many runs are in the spill file.
    pub closed spec fn run_cnt(&self) -> nat {
        self.runs@.len()
    }

    /// A run is on its way to the spill file.
    pub closed spec fn is_spilling(&self) -> bool {
        self.spilling
    }

    /// How many entries of the run that is being spilled are still to be handed out.
    pub closed spec fn unspilled(&self) -> nat {
        (self.buf@.len() - self.done) as nat
    }

    /// The spill file has what was handed out for it, and its runs are sorted.
    pub closed spec fn kept_in(&self, file: Seq<u8>) -> bool {
        &&& self.spill_end + 8 * self.done <= file.len()
        &&& forall|i: int| 0 <= i < self.runs@.len() ==> sorted(run_in(file, #[trigger] self.runs@[i]))
        &&& file.subrange(self.spill_end as int, self.spill_end + 8 * self.done) == entries_bytes(
            self.buf@.take(self.done as int),
        )
    }

    /// All entries that were pushed: those in the buffer and those in the spill file.
    pub closed spec fn content(&self, file: Seq<u8>) -> Multiset<(u32, u32)> {
        self.buf@.to_multiset().add(total(runs_in(file, self.runs@)))
    }

    /// `budget_bytes` caps the in-memory buffer. Everything beyond it goes through the spill
    /// file.
    pub fn new(budget_bytes: usize) -> (sorter: EntrySorter)
        ensures
            sorter.is_new(budget_bytes),
    {
        let entries: usize = budget_bytes / ENTRY_LEN;
        let budget: usize = if entries < MIN_BUDGET_ENTRIES {
            MIN_BUDGET_ENTRIES
        } else {
            entries
        };
        let sorter = EntrySorter {
            budget,
            buf: Vec::new(),
            done: 0,
            spilling: false,
            spill_end: 0,
            runs: Vec::new(),
        };
        proof {
            lemma_empty_multiset(sorter.buf@);
            assert forall|file: Seq<u8>| #[trigger]
                sorter.content(file) == Multiset::<(u32, u32)>::empty() && sorter.kept_in(file) by {
                assert(sorter.content(file) =~= Multiset::<(u32, u32)>::empty());
                assert(file.subrange(0, 0) =~= entries_bytes(sorter.buf@.take(0)));
            }
        }
        sorter
    }

    /// How long the spill file is.
    pub fn spill_len(&self) -> (len: u64)
        ensures
            len == self.spilled(),
    {
        self.spill_end
    }

    /// A sorter with nothing in it, for the budget.
    pub open spec fn is_new(&self, budget_bytes: usize) -> bool {
        &&& self.wf()
        &&& self.limit() == if budget_bytes / 8 < MIN_BUDGET_ENTRIES {
            MIN_BUDGET_ENTRIES as int
        } else {
            budget_bytes as int / 8
        }
        &&& self.buffered() == 0
        &&& self.spilled() == 0
        &&& self.run_cnt() == 0
        &&& !self.is_spilling()
        &&& forall|file: Seq<u8>|
            #![trigger self.content(file)]
            #![trigger self.kept_in(file)]
            self.content(file) == Multiset::<(u32, u32)>::empty() && self.kept_in(file)
    }

    /// `after` has handed out the next piece of the run that is being spilled. Once the piece is
    /// written, nothing is lost.
    pub open spec fn spills(self, after: EntrySorter, chunk: Chunk) -> bool {
        &&& after.wf()
        &&& after.limit() == self.limit()
        &&& after.is_spilling()
        &&& after.buffered() == self.buffered()
        &&& after.spilled() == self.spilled()
        &&& after.run_cnt() == self.run_cnt()
        &&& after.unspilled() < self.unspilled()
        &&& 0 < chunk.bytes@.len() <= 8 * IO_CHUNK
        &&& chunk.at == self.spilled() + 8 * (self.buffered() - self.unspilled())
        &&& chunk.bytes@.len() == 8 * (self.unspilled() - after.unspilled())
        &&& after.unspilled() == if self.unspilled() > IO_CHUNK {
            self.unspilled() - IO_CHUNK
        } else {
            0
        }
        &&& forall|file: Seq<u8>|
            #![trigger self.kept_in(file)]
            self.kept_in(file) ==> {
                let then = written(file, chunk.at as int, chunk.bytes@);
                &&& after.kept_in(then)
                &&& after.content(then) == self.content(file)
            }
    }

    /// Whatever the spill file holds, `after` has the same entries.
    pub open spec fn keeps(self, after: EntrySorter) -> bool {
        forall|file: Seq<u8>|
            #![trigger self.kept_in(file)]
            self.kept_in(file) ==> after.kept_in(file) && after.content(file) == self.content(file)
    }

    /// What a push does. One that finds the buffer full has it spilled first, and is made again
    /// once the piece that it hands out is written.
    pub open spec fn pushed(
        self,
        after: EntrySorter,
        key: u32,
        value: u32,
        out: Option<Chunk>,
    ) -> bool {
        let full = self.is_spilling() || self.buffered() == self.limit();
        &&& out is Some <==> full && !(self.is_spilling() && self.unspilled() == 0)
        &&& match out {
            Some(chunk) => self.spills(after, chunk),
            None => {
                &&& after.wf()
                &&& after.limit() == self.limit()
                &&& !after.is_spilling()
                &&& after.buffered() == 1 + if full {
                    0
                } else {
                    self.buffered()
                }
                &&& after.spilled() == self.spilled() + if full {
                    8 * self.buffered()
                } else {
                    0
                }
                &&& after.run_cnt() == self.run_cnt() + if full {
                    1int
                } else {
                    0int
                }
                &&& forall|file: Seq<u8>|
                    #![trigger self.kept_in(file)]
                    self.kept_in(file) ==> after.kept_in(file) && after.content(file)
                        == self.content(file).insert((key, value))
            },
        }
    }

    /// Adds an entry. Where the buffer is full, the buffer goes to the spill file first: the caller
    /// writes what comes back and pushes the entry again, until nothing comes back. Only then the
    /// entry is in. A set that is no larger than the buffer is never spilled.
    pub fn push(&mut self, key: u32, value: u32) -> (out: Option<Chunk>)
        requires
            old(self).wf(),
            old(self).spilled() + 8 * old(self).buffered() <= u64::MAX,
        ensures
            old(self).pushed(*final(self), key, value, out),
    {
        if self.spilling || self.buf.len() == self.budget {
            if let Some(chunk) = self.flush_run() {
                return Some(chunk);
            }
        }
        let ghost before = *self;
        self.buf.push((key, value));
        proof {
            broadcast use vstd::seq_lib::to_multiset_build;

            assert forall|file: Seq<u8>|
                #![trigger old(self).kept_in(file)]
                old(self).kept_in(file) implies self.kept_in(file) && self.content(file) == old(
                self,
            ).content(file).insert((key, value)) by {
                assert(before.kept_in(file) && before.content(file) == old(self).content(file));
                assert(self.buf@.take(0) =~= before.buf@.take(0));
                assert(self.content(file) =~= before.content(file).insert((key, value)));
            }
        }
        None
    }

    /// Spills the buffer as one run, sorted: hands out the next piece of it, and nothing once
    /// the run is complete.
    fn flush_run(&mut self) -> (out: Option<Chunk>)
        requires
            old(self).wf(),
            old(self).spilled() + 8 * old(self).buffered() <= u64::MAX,
        ensures
            final(self).wf(),
            final(self).limit() == old(self).limit(),
            out is None <==> old(self).is_spilling() && old(self).unspilled() == 0 || old(
                self,
            ).buffered() == 0,
            match out {
                None => {
                    &&& !final(self).is_spilling()
                    &&& final(self).buffered() == 0
                    &&& final(self).spilled() == old(self).spilled() + 8 * old(self).buffered()
                    &&& final(self).run_cnt() == old(self).run_cnt() + if old(self).buffered()
                        > 0 {
                        1int
                    } else {
                        0int
                    }
                    &&& old(self).keeps(*final(self))
                },
                Some(chunk) => old(self).spills(*final(self), chunk),
            },
    {
        if self.buf.len() == 0 {
            return None;
        }
        if self.spilling && self.done == self.buf.len() {
            return self.finish_run();
        }
        if !self.spilling {
            self.start_run();
        }
        Some(self.next_chunk())
    }

    /// Sorts the buffer, for a run of its own.
    fn start_run(&mut self)
        requires
            old(self).wf(),
            !old(self).spilling,
            old(self).buf@.len() > 0,
            old(self).spill_end + 8 * old(self).buf@.len() <= u64::MAX,
        ensures
            final(self).wf(),
            final(self).spilling,
            final(self).done == 0,
            final(self).budget == old(self).budget,
            final(self).runs == old(self).runs,
            final(self).spill_end == old(self).spill_end,
            final(self).buf@.len() == old(self).buf@.len(),
            forall|file: Seq<u8>|
                #![trigger old(self).kept_in(file)]
                old(self).kept_in(file) ==> final(self).kept_in(file) && final(self).content(file)
                    == old(self).content(file),
    {
        let ghost start = *self;
        sort_by_key(&mut self.buf);
        self.spilling = true;
        proof {
            broadcast use vstd::seq_lib::to_multiset_len;

            assert(self.buf@.to_multiset().len() == start.buf@.to_multiset().len());
            assert(self.buf@.take(0) =~= start.buf@.take(0));
        }
    }

    /// Hands out the next piece of the run that is being spilled.
    fn next_chunk(&mut self) -> (chunk: Chunk)
        requires
            old(self).wf(),
            old(self).spilling,
            old(self).done < old(self).buf@.len(),
        ensures
            final(self).wf(),
            final(self).spilling,
            final(self).done > old(self).done,
            final(self).budget == old(self).budget,
            final(self).runs == old(self).runs,
            final(self).spill_end == old(self).spill_end,
            final(self).buf == old(self).buf,
            0 < chunk.bytes@.len() <= 8 * IO_CHUNK,
            chunk.at == old(self).spill_end + 8 * old(self).done,
            chunk.bytes@.len() == 8 * (final(self).done - old(self).done),
            final(self).done == if old(self).buf@.len() - old(self).done > IO_CHUNK {
                old(self).done + IO_CHUNK
            } else {
                old(self).buf@.len() as int
            },
            forall|file: Seq<u8>|
                #![trigger old(self).kept_in(file)]
                old(self).kept_in(file) ==> {
                    let after = written(file, chunk.at as int, chunk.bytes@);
                    &&& final(self).kept_in(after)
                    &&& final(self).content(after) == old(self).content(file)
                },
    {
        let ghost start = *self;
        let from: usize = self.done;
        let to: usize = if self.buf.len() - from > IO_CHUNK {
            from + IO_CHUNK
        } else {
            self.buf.len()
        };
        let bytes = encode_entries(&self.buf, from, to);
        let at: u64 = self.spill_end + 8 * (from as u64);
        self.done = to;
        proof {
            assert forall|file: Seq<u8>|
                #![trigger old(self).kept_in(file)]
                old(self).kept_in(file) implies {
                let after = written(file, at as int, bytes@);
                &&& self.kept_in(after)
                &&& self.content(after) == old(self).content(file)
            } by {
                lemma_chunk_kept(start, *self, file);
            }
        }
        Chunk { at, bytes }
    }

    /// Takes notice that the run is complete.
    fn finish_run(&mut self) -> (out: Option<Chunk>)
        requires
            old(self).wf(),
            old(self).spilling,
            old(self).done == old(self).buf@.len(),
        ensures
            out is None,
            final(self).wf(),
            final(self).limit() == old(self).limit(),
            !final(self).is_spilling(),
            final(self).buffered() == 0,
            final(self).spilled() == old(self).spilled() + 8 * old(self).buffered(),
            final(self).run_cnt() == old(self).run_cnt() + 1,
            forall|file: Seq<u8>|
                #![trigger old(self).kept_in(file)]
                old(self).kept_in(file) ==> final(self).kept_in(file) && final(self).content(file)
                    == old(self).content(file),
    {
        let ghost start = *self;
        let count: u64 = self.buf.len() as u64;
        let run = (self.spill_end, count);
        self.runs.push(run);
        self.spill_end = self.spill_end + 8 * count;
        self.buf.clear();
        self.done = 0;
        self.spilling = false;
        proof {
            lemma_empty_multiset(self.buf@);
            assert forall|file: Seq<u8>|
                #![trigger old(self).kept_in(file)]
                old(self).kept_in(file) implies self.kept_in(file) && self.content(file) == old(
                self,
            ).content(file) by {
                lemma_entries_in(start.buf@);
                assert(start.buf@.take(start.done as int) =~= start.buf@);
                assert(run_in(file, run) == start.buf@);
                let rs = runs_in(file, self.runs@);
                assert(rs.drop_last() =~= runs_in(file, start.runs@));
                assert(rs.last() == start.buf@);
                assert(self.content(file) =~= start.content(file));
                assert forall|i: int| 0 <= i < self.runs@.len() implies sorted(
                    run_in(file, #[trigger] self.runs@[i]),
                ) by {
                    if i < start.runs@.len() {
                        assert(sorted(run_in(file, start.runs@[i])));
                    }
                }
                assert(file.subrange(self.spill_end as int, self.spill_end as int)
                    =~= entries_bytes(self.buf@.take(0)));
            }
        }
        None
    }
}

/// A piece of a run that was written where it belongs is kept.
proof fn lemma_chunk_kept(start: EntrySorter, end: EntrySorter, file: Seq<u8>)
    requires
        start.wf(),
        start.kept_in(file),
        start.done <= end.done <= start.buf@.len(),
        end.buf == start.buf,
        end.runs == start.runs,
        end.spill_end == start.spill_end,
    ensures
        ({
            let bytes = entries_bytes(start.buf@.subrange(start.done as int, end.done as int));
            let after = written(file, start.spill_end + 8 * start.done, bytes);
            &&& end.kept_in(after)
            &&& end.content(after) == start.content(file)
        }),
{
    let s = start.buf@;
    let (from, to) = (start.done as int, end.done as int);
    let bytes = entries_bytes(s.subrange(from, to));
    let at = start.spill_end + 8 * from;
    let after = written(file, at, bytes);
    lemma_write_behind(file, start.runs@, start.spill_end as int, at, bytes);
    lemma_runs_sorted(file, after, start.runs@);
    lemma_entries_in(s.take(from));
    lemma_entries_in(s.take(to));
    lemma_entries_in(s.subrange(from, to));
    lemma_bytes_joined(s, from, to);
    lemma_written_on(file, start.spill_end as int, at, bytes);
}

/// Runs that are the same in two files are sorted in both.
proof fn lemma_runs_sorted(file: Seq<u8>, after: Seq<u8>, runs: Seq<(u64, u64)>)
    requires
        runs_in(after, runs) == runs_in(file, runs),
        forall|i: int| 0 <= i < runs.len() ==> sorted(run_in(file, #[trigger] runs[i])),
    ensures
        forall|i: int| 0 <= i < runs.len() ==> sorted(run_in(after, #[trigger] runs[i])),
{
    assert forall|i: int| 0 <= i < runs.len() implies sorted(run_in(after, #[trigger] runs[i])) by {
        assert(runs_in(after, runs)[i] == runs_in(file, runs)[i]);
        assert(sorted(run_in(file, runs[i])));
    }
}

/// What is written right behind a part of a file makes that part longer.
proof fn lemma_written_on(file: Seq<u8>, from: int, at: int, bytes: Seq<u8>)
    requires
        0 <= from <= at <= file.len(),
    ensures
        written(file, at, bytes).subrange(from, at + bytes.len()) == file.subrange(from, at)
            + bytes,
        at + bytes.len() <= written(file, at, bytes).len(),
{
    assert(written(file, at, bytes).subrange(from, at + bytes.len()) =~= file.subrange(from, at)
        + bytes);
}

/// The bytes of two parts of a sequence, one after the other, are those of both.
proof fn lemma_bytes_joined(s: Seq<(u32, u32)>, from: int, to: int)
    requires
        0 <= from <= to <= s.len(),
    ensures
        entries_bytes(s.take(to)) == entries_bytes(s.take(from)) + entries_bytes(
            s.subrange(from, to),
        ),
{
    let a = entries_bytes(s.take(from));
    let b = entries_bytes(s.subrange(from, to));
    let c = entries_bytes(s.take(to));
    assert forall|i: int| 0 <= i < c.len() implies c[i] == #[trigger] (a + b)[i] by {
        if i < a.len() {
            assert(s.take(to)[i / 8] == s.take(from)[i / 8]);
        } else {
            assert((i - 8 * from) / 8 == i / 8 - from && (i - 8 * from) % 8 == i % 8);
            assert(s.take(to)[i / 8] == s.subrange(from, to)[i / 8 - from]);
        }
    }
    assert(c =~= a + b);
}

/// The bytes of some of the entries.
fn encode_entries(entries: &Vec<(u32, u32)>, from: usize, to: usize) -> (bytes: Vec<u8>)
    requires
        from <= to <= entries@.len(),
    ensures
        bytes@ == entries_bytes(entries@.subrange(from as int, to as int)),
{
    let mut bytes: Vec<u8> = Vec::new();
    let mut i: usize = from;
    assert(bytes@ =~= entries_bytes(entries@.subrange(from as int, from as int)));
    while i < to
        invariant
            from <= i <= to <= entries@.len(),
            bytes@ == entries_bytes(entries@.subrange(from as int, i as int)),
        decreases to - i,
    {
        let (key, value) = entries[i];
        let ghost before = bytes@;
        push_u32(&mut bytes, key);
        push_u32(&mut bytes, value);
        proof {
            let a = entries@.subrange(from as int, i as int);
            let b = entries@.subrange(from as int, i + 1);
            assert(bytes@ =~= before + entry_bytes(key, value));
            assert forall|j: int| 0 <= j < bytes@.len() implies bytes@[j] == #[trigger] entries_bytes(
                b,
            )[j] by {
                if j < before.len() {
                    assert(b[j / 8] == a[j / 8]);
                } else {
                    assert(j / 8 == i - from && j % 8 == j - 8 * (i - from));
                    assert(b[i - from] == (key, value));
                }
            }
            assert(bytes@ =~= entries_bytes(b));
        }
        i += 1;
    }
    bytes
}

fn push_u32(bytes: &mut Vec<u8>, n: u32)
    ensures
        final(bytes)@ == old(bytes)@ + le32_bytes(n),
{
    bytes.push((n % 0x100) as u8);
    bytes.push((n / 0x100 % 0x100) as u8);
    bytes.push((n / 0x1_0000 % 0x100) as u8);
    bytes.push((n / 0x100_0000) as u8);
    assert(bytes@ =~= old(bytes)@ + le32_bytes(n));
}

/// Read cursor over one spilled run.
struct Cursor {
    at: u64,
    unread: u64,
    buf: Vec<(u32, u32)>,
    pos: usize,
}

impl Cursor {
    spec fn wf(&self) -> bool {
        &&& self.pos <= self.buf@.len()
        &&& self.at + 8 * self.unread <= u64::MAX
    }

    /// The entries that are still to come.
    spec fn rest(&self, file: Seq<u8>) -> Seq<(u32, u32)> {
        self.buf@.skip(self.pos as int) + run_in(file, (self.at, self.unread))
    }

    /// The part of the run that is not read yet is in the file.
    spec fn fits(&self, file: Seq<u8>) -> bool {
        self.at + 8 * self.unread <= file.len()
    }

    /// The next entry, as far as it is read.
    spec fn front(&self) -> Option<(u32, u32)> {
        if self.pos < self.buf@.len() {
            Some(self.buf@[self.pos as int])
        } else {
            None
        }
    }

    /// Nothing is read ahead, and there is more to read.
    spec fn starved(&self) -> bool {
        self.pos == self.buf@.len() && self.unread > 0
    }

    /// How many entries the next read brings.
    spec fn take_next(&self) -> int {
        if self.unread > IO_CHUNK {
            IO_CHUNK as int
        } else {
            self.unread as int
        }
    }

    fn new(offset: u64, count: u64) -> (cursor: Cursor)
        requires
            offset + 8 * count <= u64::MAX,
        ensures
            cursor.wf(),
            cursor.at == offset,
            cursor.unread == count,
            cursor.buf@.len() == 0,
            forall|file: Seq<u8>|
                offset + 8 * count <= file.len() ==> cursor.fits(file) && #[trigger] cursor.rest(
                    file,
                ) == run_in(file, (offset, count)),
    {
        let cursor = Cursor { at: offset, unread: count, buf: Vec::new(), pos: 0 };
        proof {
            assert forall|file: Seq<u8>|
                offset + 8 * count <= file.len() implies cursor.fits(file) && #[trigger] cursor.rest(
                file,
            ) == run_in(file, (offset, count)) by {
                assert(cursor.rest(file) =~= run_in(file, (offset, count)));
            }
        }
        cursor
    }

    fn peek(&self) -> (entry: Option<(u32, u32)>)
        ensures
            entry == self.front(),
    {
        if self.pos < self.buf.len() {
            Some(self.buf[self.pos])
        } else {
            None
        }
    }

    fn is_starved(&self) -> (r: bool)
        requires
            self.wf(),
        ensures
            r == self.starved(),
    {
        self.pos == self.buf.len() && self.unread > 0
    }

    /// Where the next read begins, and how many bytes it brings.
    fn wanted(&self) -> (want: (u64, usize))
        ensures
            want.0 == self.at,
            want.1 == 8 * self.take_next(),
    {
        let take: usize = if self.unread > IO_CHUNK as u64 {
            IO_CHUNK
        } else {
            self.unread as usize
        };
        (self.at, take * ENTRY_LEN)
    }

    /// Steps past the next entry.
    fn advance(&mut self)
        requires
            old(self).wf(),
            old(self).front() is Some,
        ensures
            final(self).wf(),
            final(self).at == old(self).at,
            final(self).unread == old(self).unread,
            final(self).buf == old(self).buf,
            final(self).pos == old(self).pos + 1,
            forall|file: Seq<u8>|
                #![trigger final(self).rest(file)]
                old(self).rest(file).len() > 0 && old(self).rest(file)[0] == old(self).front()->0
                    && final(self).rest(file) == old(self).rest(file).skip(1),
    {
        let ghost before = *self;
        assert(self.pos < self.buf.len());
        self.pos += 1;
        proof {
            assert forall|file: Seq<u8>|
                #![trigger self.rest(file)]
                before.rest(file).len() > 0 && before.rest(file)[0] == before.front()->0
                    && self.rest(file) == before.rest(file).skip(1) by {
                assert(self.rest(file) =~= before.rest(file).skip(1));
            }
        }
    }

    /// Takes in the bytes that were read.
    fn refill(&mut self, bytes: &[u8])
        requires
            old(self).wf(),
            old(self).starved(),
            bytes@.len() == 8 * old(self).take_next(),
        ensures
            final(self).wf(),
            final(self).pos == 0,
            final(self).buf@ == entries_in(bytes@),
            final(self).unread == old(self).unread - old(self).take_next(),
            final(self).front() is Some,
            forall|file: Seq<u8>|
                #![trigger old(self).fits(file)]
                old(self).fits(file) && file.subrange(
                    old(self).at as int,
                    old(self).at + bytes@.len(),
                ) == bytes@ ==> final(self).fits(file) && final(self).rest(file) == old(
                    self,
                ).rest(file),
    {
        let ghost before = *self;
        let take: usize = if self.unread > IO_CHUNK as u64 {
            IO_CHUNK
        } else {
            self.unread as usize
        };
        self.buf.clear();
        self.pos = 0;
        let mut i: usize = 0;
        assert(self.buf@ =~= entries_in(bytes@).take(0));
        while i < take
            invariant
                i <= take,
                bytes@.len() == 8 * take,
                take <= IO_CHUNK,
                self.pos == 0,
                self.at == before.at,
                self.unread == before.unread,
                self.buf@ == entries_in(bytes@).take(i as int),
            decreases take - i,
        {
            self.buf.push((u32_from_pos(bytes, 8 * i), u32_from_pos(bytes, 8 * i + 4)));
            i += 1;
            assert(self.buf@ =~= entries_in(bytes@).take(i as int));
        }
        assert(self.buf@ =~= entries_in(bytes@));
        self.at = self.at + 8 * (take as u64);
        self.unread = self.unread - take as u64;
        proof {
            assert forall|file: Seq<u8>|
                #![trigger before.fits(file)]
                before.fits(file) && file.subrange(before.at as int, before.at + bytes@.len())
                    == bytes@ implies self.fits(file) && self.rest(file) == before.rest(file) by {
                let n = before.unread as int;
                let whole = file.subrange(before.at as int, before.at + 8 * n);
                let tail = file.subrange(self.at as int, self.at + 8 * self.unread);
                assert(whole =~= bytes@ + tail);
                lemma_entries_parts(bytes@, tail);
                assert(before.buf@.skip(before.pos as int) =~= Seq::<(u32, u32)>::empty());
                assert(self.buf@.skip(0) =~= self.buf@);
                assert(self.rest(file) =~= before.rest(file));
            }
        }
    }
}

/// Whole entries, one part after the other, are read as those of the parts.
proof fn lemma_entries_parts(a: Seq<u8>, b: Seq<u8>)
    requires
        a.len() % 8 == 0,
        b.len() % 8 == 0,
    ensures
        entries_in(a + b) == entries_in(a) + entries_in(b),
{
    let c = a + b;
    let n = a.len() / 8;
    assert forall|i: int| 0 <= i < entries_in(c).len() implies entries_in(c)[i]
        == #[trigger] (entries_in(a) + entries_in(b))[i] by {
        if i < n {
            assert(le32(c, 8 * i) == le32(a, 8 * i));
            assert(le32(c, 8 * i + 4) == le32(a, 8 * i + 4));
        } else {
            assert(le32(c, 8 * i) == le32(b, 8 * (i - n)));
            assert(le32(c, 8 * i + 4) == le32(b, 8 * (i - n) + 4));
        }
    }
    assert(entries_in(c) =~= entries_in(a) + entries_in(b));
}

/// How many entries several cursors have not read yet.
spec fn unread_total(cursors: Seq<Cursor>) -> nat
    decreases cursors.len(),
{
    if cursors.len() == 0 {
        0
    } else {
        unread_total(cursors.drop_last()) + cursors.last().unread as nat
    }
}

/// A cursor replaced by another: the total changes by as much as they differ.
proof fn lemma_unread_update(cursors: Seq<Cursor>, after: Seq<Cursor>, i: int)
    requires
        0 <= i < cursors.len(),
        after.len() == cursors.len(),
        forall|j: int| 0 <= j < cursors.len() && j != i ==> #[trigger] after[j] == cursors[j],
    ensures
        unread_total(after) + cursors[i].unread == unread_total(cursors) + after[i].unread,
    decreases cursors.len(),
{
    if i < cursors.len() - 1 {
        lemma_unread_update(cursors.drop_last(), after.drop_last(), i);
    } else {
        assert(after.drop_last() =~= cursors.drop_last());
    }
}

/// What a drain does next.
#[derive(Debug, Clone, Copy, PartialEq, Eq, Structural)]
pub enum DrainStep {
    /// Read these bytes of the spill file and hand them to `supply`.
    Read { at: u64, len: usize },
    /// The next entry.
    Emit { key: u32, value: u32 },
    /// There are no more entries. So many runs were merged.
    Done { runs: usize },
}

/// The merge of the spilled runs, or the sorted buffer if nothing was spilled.
pub struct Drain {
    cursors: Vec<Cursor>,
    heap: MinHeap,
    /// How many of the cursors are filled.
    filled: usize,
    /// An entry that is held back until its cursor is filled again.
    held: Option<((u32, u32), usize)>,
    runs: usize,
}

impl Drain {
    /// The heap should hold the next key of cursor `i`.
    spec fn listed(&self, key: u32, i: usize) -> bool {
        &&& i < self.filled
        &&& i < self.cursors@.len()
        &&& self.cursors@[i as int].front() is Some
        &&& (self.cursors@[i as int].front()->0).0 == key
        &&& !(self.held is Some && (self.held->0).1 == i)
    }

    pub closed spec fn wf(&self) -> bool {
        &&& self.heap.wf()
        &&& self.filled <= self.cursors@.len()
        &&& forall|i: int| 0 <= i < self.cursors@.len() ==> (#[trigger] self.cursors@[i]).wf()
        &&& forall|key: u32, i: usize|
            #![trigger self.heap.contents().count((key, i))]
            self.heap.contents().count((key, i)) == if self.listed(key, i) {
                1nat
            } else {
                0nat
            }
        &&& forall|i: int|
            0 <= i < self.filled && !(self.held is Some && (self.held->0).1 == i) ==> !(
            #[trigger] self.cursors@[i]).starved()
        &&& self.held is Some ==> self.filled == self.cursors@.len() && (self.held->0).1
            < self.cursors@.len()
    }

    /// What each cursor still has.
    spec fn rests(&self, file: Seq<u8>) -> Seq<Seq<(u32, u32)>> {
        Seq::new(self.cursors@.len(), |i: int| self.cursors@[i].rest(file))
    }

    /// The entries that are still to come.
    pub closed spec fn left(&self, file: Seq<u8>) -> Multiset<(u32, u32)> {
        match self.held {
            Some((entry, _)) => total(self.rests(file)).insert(entry),
            None => total(self.rests(file)),
        }
    }

    /// The file has what the cursors did not read yet, and what they still have is sorted.
    pub closed spec fn reads_from(&self, file: Seq<u8>) -> bool {
        &&& forall|i: int| 0 <= i < self.cursors@.len() ==> (#[trigger] self.cursors@[i]).fits(file)
        &&& forall|i: int|
            0 <= i < self.cursors@.len() ==> sorted((#[trigger] self.cursors@[i]).rest(file))
        &&& self.held is Some ==> forall|e: (u32, u32)| #[trigger]
            self.left(file).count(e) > 0 ==> ((self.held->0).0).0 <= e.0
    }

    /// How many runs are merged.
    pub closed spec fn run_cnt(&self) -> nat {
        self.runs as nat
    }

    /// How many entries are still to be read from the spill file.
    pub closed spec fn to_read(&self) -> nat {
        unread_total(self.cursors@)
    }

    /// The cursor that has to be filled before the next step.
    spec fn waiting(&self) -> Option<usize> {
        match self.held {
            Some((_, i)) => if self.cursors@[i as int].starved() {
                Some(i)
            } else {
                None
            },
            None => if self.filled < self.cursors@.len()
                && self.cursors@[self.filled as int].starved() {
                Some(self.filled)
            } else {
                None
            },
        }
    }

    /// The bytes of the spill file that the next step waits for: where they begin, and how many
    /// there are.
    pub closed spec fn awaited(&self) -> Option<(u64, int)> {
        match self.waiting() {
            Some(i) => Some((self.cursors@[i as int].at, 8 * self.cursors@[i as int].take_next())),
            None => None,
        }
    }

    /// Lists the next key of cursor `i` in the heap.
    fn list_front(&mut self, i: usize)
        requires
            old(self).heap.wf(),
            i < old(self).cursors@.len(),
            forall|key: u32| #[trigger] old(self).heap.contents().count((key, i)) == 0,
        ensures
            final(self).heap.wf(),
            final(self).cursors == old(self).cursors,
            final(self).filled == old(self).filled,
            final(self).held == old(self).held,
            final(self).runs == old(self).runs,
            forall|key: u32, j: usize|
                #![trigger final(self).heap.contents().count((key, j))]
                j != i ==> final(self).heap.contents().count((key, j)) == old(
                    self,
                ).heap.contents().count((key, j)),
            forall|key: u32|
                #![trigger final(self).heap.contents().count((key, i))]
                final(self).heap.contents().count((key, i)) == if old(self).cursors@[i as int].front()
                    is Some && (old(self).cursors@[i as int].front()->0).0 == key {
                    1nat
                } else {
                    0nat
                },
    {
        if let Some((key, _)) = self.cursors[i].peek() {
            self.heap.push((key, i));
        }
    }

    /// What the supply of bytes does. Bytes that are not as many as are waited for are not taken.
    pub open spec fn supplied(self, after: Drain, bytes: Seq<u8>, taken: bool) -> bool {
        &&& taken <==> self.awaited() is Some && (self.awaited()->0).1 == bytes.len()
        &&& !taken ==> after == self
        &&& taken ==> {
            &&& after.wf()
            &&& after.run_cnt() == self.run_cnt()
            &&& after.awaited() is None
            &&& after.to_read() + bytes.len() / 8 == self.to_read()
            &&& forall|file: Seq<u8>|
                #![trigger self.reads_from(file)]
                self.reads_from(file) && file.subrange(
                    (self.awaited()->0).0 as int,
                    (self.awaited()->0).0 + bytes.len(),
                ) == bytes ==> after.reads_from(file) && after.left(file) == self.left(file)
        }
    }

    /// Takes in the bytes that the last step asked for. Tells whether they were waited for.
    pub fn supply(&mut self, bytes: &[u8]) -> (taken: bool)
        requires
            old(self).wf(),
        ensures
            final(self).wf(),
            old(self).supplied(*final(self), bytes@, taken),
    {
        let ghost before = *self;
        let i: usize = match self.held {
            Some((_, i)) => i,
            None => self.filled,
        };
        if i >= self.cursors.len() || !self.cursors[i].is_starved() {
            return false;
        }
        let (_, len) = self.cursors[i].wanted();
        if bytes.len() != len {
            return false;
        }
        self.cursors[i].refill(bytes);
        proof {
            lemma_unread_update(before.cursors@, self.cursors@, i as int);
            assert(before.waiting() == Some(i));
            let c = before.cursors@[i as int];
            assert forall|file: Seq<u8>|
                #![trigger before.reads_from(file)]
                before.reads_from(file) && file.subrange(
                    (before.awaited()->0).0 as int,
                    (before.awaited()->0).0 + bytes@.len(),
                ) == bytes@ implies self.reads_from(file) && self.left(file) == before.left(
                file,
            ) by {
                assert(c.fits(file));
                assert(self.cursors@[i as int].rest(file) == c.rest(file));
                assert forall|j: int| 0 <= j < self.cursors@.len() implies {
                    &&& (#[trigger] self.cursors@[j]).fits(file)
                    &&& sorted(self.cursors@[j].rest(file))
                    &&& self.cursors@[j].rest(file) == before.cursors@[j].rest(file)
                } by {
                    assert(before.cursors@[j].fits(file));
                    assert(sorted(before.cursors@[j].rest(file)));
                }
                assert(self.rests(file) =~= before.rests(file));
                assert(self.left(file) == before.left(file));
            }
        }
        true
    }

    /// What a step of the merge does, whatever the file holds, as long as it holds what the merge
    /// reads from it.
    spec fn stepped(self, after: Drain, step: DrainStep, file: Seq<u8>) -> bool {
        self.reads_from(file) ==> match step {
            DrainStep::Read { .. } => after.reads_from(file) && after.left(file) == self.left(file),
            DrainStep::Emit { key, value } => {
                &&& after.reads_from(file)
                &&& self.left(file).count((key, value)) > 0
                &&& after.left(file) == self.left(file).remove((key, value))
                &&& forall|e: (u32, u32)| #[trigger] self.left(file).count(e) > 0 ==> key <= e.0
            },
            DrainStep::Done { .. } => {
                &&& after.reads_from(file)
                &&& self.left(file) == Multiset::<(u32, u32)>::empty()
                &&& after.left(file) == self.left(file)
            },
        }
    }

    /// Goes on with an entry that was held back.
    fn step_held(&mut self, entry: (u32, u32), i: usize) -> (step: DrainStep)
        requires
            old(self).wf(),
            old(self).held == Some((entry, i)),
        ensures
            final(self).wf(),
            final(self).runs == old(self).runs,
            final(self).to_read() == old(self).to_read(),
            match step {
                DrainStep::Read { at, len } => final(self).awaited() == Some((at, len as int))
                    && len > 0,
                DrainStep::Emit { .. } => final(self).awaited() is None,
                DrainStep::Done { .. } => false,
            },
            forall|file: Seq<u8>|
                #![trigger old(self).reads_from(file)]
                old(self).stepped(*final(self), step, file),
    {
        let ghost before = *self;
        assert(self.cursors@[i as int].wf());
        if self.cursors[i].is_starved() {
            let (at, len) = self.cursors[i].wanted();
            return DrainStep::Read { at, len };
        }
        assert forall|key: u32| #[trigger] self.heap.contents().count((key, i)) == 0 by {
            assert(!self.listed(key, i));
        }
        self.held = None;
        self.list_front(i);
        proof {
            assert forall|key: u32, j: usize|
                #![trigger self.heap.contents().count((key, j))]
                self.heap.contents().count((key, j)) == if self.listed(key, j) {
                    1nat
                } else {
                    0nat
                } by {
                if j != i {
                    assert(before.heap.contents().count((key, j)) == if before.listed(key, j) {
                        1nat
                    } else {
                        0nat
                    });
                }
            }
            assert forall|file: Seq<u8>|
                #![trigger before.reads_from(file)]
                before.stepped(*self, DrainStep::Emit { key: entry.0, value: entry.1 }, file) by {
                if before.reads_from(file) {
                    assert(self.rests(file) =~= before.rests(file));
                    assert(self.left(file) =~= before.left(file).remove(entry));
                    assert forall|j: int| 0 <= j < self.cursors@.len() implies (
                    #[trigger] self.cursors@[j]).fits(file) && sorted(
                        self.cursors@[j].rest(file),
                    ) by {
                        assert(before.cursors@[j].fits(file));
                    }
                }
            }
        }
        DrainStep::Emit { key: entry.0, value: entry.1 }
    }

    /// Takes the smallest of the next keys.
    fn step_pop(&mut self) -> (step: DrainStep)
        requires
            old(self).wf(),
            old(self).held is None,
            old(self).filled == old(self).cursors@.len(),
        ensures
            final(self).wf(),
            final(self).runs == old(self).runs,
            final(self).to_read() == old(self).to_read(),
            match step {
                DrainStep::Read { at, len } => final(self).awaited() == Some((at, len as int))
                    && len > 0,
                DrainStep::Emit { .. } => final(self).awaited() is None,
                DrainStep::Done { runs } => final(self).awaited() is None && runs == old(self).runs,
            },
            forall|file: Seq<u8>|
                #![trigger old(self).reads_from(file)]
                old(self).stepped(*final(self), step, file),
    {
        let ghost before = *self;
        let (key, i) = match self.heap.pop() {
            None => {
                proof {
                    assert forall|file: Seq<u8>|
                        #![trigger before.reads_from(file)]
                        before.stepped(*self, DrainStep::Done { runs: self.runs }, file) by {
                        if before.reads_from(file) {
                            lemma_drained(before, file);
                            assert(self.rests(file) =~= before.rests(file));
                        }
                    }
                }
                return DrainStep::Done { runs: self.runs };
            },
            Some(top) => top,
        };
        assert(before.listed(key, i));
        assert(self.cursors@[i as int].wf());
        let entry = match self.cursors[i].peek() {
            Some(entry) => entry,
            None => {
                return DrainStep::Done { runs: self.runs };
            },
        };
        self.cursors[i].advance();
        let ghost popped = *self;
        proof {
            lemma_unread_update(before.cursors@, popped.cursors@, i as int);
            assert forall|k: u32, j: usize|
                #![trigger popped.heap.contents().count((k, j))]
                popped.heap.contents().count((k, j)) == if j != i && before.listed(k, j) {
                    1nat
                } else {
                    0nat
                } by {
                assert(before.heap.contents().count((k, j)) == if before.listed(k, j) {
                    1nat
                } else {
                    0nat
                });
            }
            assert forall|file: Seq<u8>|
                #![trigger before.reads_from(file)]
                before.reads_from(file) implies {
                &&& popped.rests(file) == before.rests(file).update(
                    i as int,
                    before.rests(file)[i as int].skip(1),
                )
                &&& total(popped.rests(file)) == total(before.rests(file)).remove(entry)
                &&& total(before.rests(file)).count(entry) > 0
                &&& sorted(popped.cursors@[i as int].rest(file))
                &&& forall|e: (u32, u32)| #[trigger]
                    before.left(file).count(e) > 0 ==> entry.0 <= e.0
            } by {
                let rs = before.rests(file);
                let c = before.cursors@[i as int];
                assert(c.rest(file) == rs[i as int]);
                assert(popped.cursors@[i as int].rest(file) == c.rest(file).skip(1));
                assert(sorted(c.rest(file)));
                assert(popped.rests(file) =~= rs.update(i as int, rs[i as int].skip(1)));
                lemma_total_first(rs, i as int);
                assert forall|e: (u32, u32)| #[trigger]
                    before.left(file).count(e) > 0 implies entry.0 <= e.0 by {
                    lemma_popped_least(before, file, key, i, e);
                }
            }
        }
        if self.cursors[i].is_starved() {
            self.held = Some((entry, i));
            let (at, len) = self.cursors[i].wanted();
            proof {
                assert forall|file: Seq<u8>|
                    #![trigger before.reads_from(file)]
                    before.stepped(*self, DrainStep::Read { at, len }, file) by {
                    if before.reads_from(file) {
                        assert(self.rests(file) =~= popped.rests(file));
                        assert(self.left(file) =~= before.left(file));
                        lemma_still_reads(before, *self, file, i);
                    }
                }
                assert forall|k: u32, j: usize|
                    #![trigger self.heap.contents().count((k, j))]
                    self.heap.contents().count((k, j)) == if self.listed(k, j) {
                        1nat
                    } else {
                        0nat
                    } by {
                    assert(popped.heap.contents().count((k, j)) == if j != i && before.listed(
                        k,
                        j,
                    ) {
                        1nat
                    } else {
                        0nat
                    });
                }
            }
            return DrainStep::Read { at, len };
        }
        assert forall|k: u32| #[trigger] self.heap.contents().count((k, i)) == 0 by {}
        self.list_front(i);
        proof {
            assert forall|file: Seq<u8>|
                #![trigger before.reads_from(file)]
                before.stepped(
                    *self,
                    DrainStep::Emit { key: entry.0, value: entry.1 },
                    file,
                ) by {
                if before.reads_from(file) {
                    assert(self.rests(file) =~= popped.rests(file));
                    lemma_still_reads(before, *self, file, i);
                }
            }
            assert forall|k: u32, j: usize|
                #![trigger self.heap.contents().count((k, j))]
                self.heap.contents().count((k, j)) == if self.listed(k, j) {
                    1nat
                } else {
                    0nat
                } by {
                if j != i {
                    assert(popped.heap.contents().count((k, j)) == if before.listed(k, j) {
                        1nat
                    } else {
                        0nat
                    });
                }
            }
        }
        DrainStep::Emit { key: entry.0, value: entry.1 }
    }

    /// What a step does, whatever the file holds, as long as it holds what the merge reads from
    /// it. A read asks for no more than one buffer and for nothing behind the end of the file.
    pub open spec fn steps_to(self, after: Drain, step: DrainStep) -> bool {
        &&& after.wf()
        &&& after.run_cnt() == self.run_cnt()
        &&& after.to_read() == self.to_read()
        &&& step is Read <==> after.awaited() is Some
        &&& match step {
            DrainStep::Read { at, len } => {
                &&& after.awaited() == Some((at, len as int))
                &&& 0 < len <= 8 * IO_CHUNK
                &&& len <= 8 * self.to_read()
                &&& forall|file: Seq<u8>|
                    #![trigger self.reads_from(file)]
                    self.reads_from(file) ==> after.reads_from(file) && after.left(file)
                        == self.left(file) && at + len <= file.len()
            },
            DrainStep::Emit { key, value } => {
                &&& forall|file: Seq<u8>|
                    #![trigger self.reads_from(file)]
                    self.reads_from(file) ==> {
                        &&& after.reads_from(file)
                        &&& self.left(file).count((key, value)) > 0
                        &&& after.left(file) == self.left(file).remove((key, value))
                        &&& forall|e: (u32, u32)| #[trigger]
                            self.left(file).count(e) > 0 ==> key <= e.0
                    }
            },
            DrainStep::Done { runs } => {
                &&& runs == self.run_cnt()
                &&& forall|file: Seq<u8>|
                    #![trigger self.reads_from(file)]
                    self.reads_from(file) ==> {
                        &&& after.reads_from(file)
                        &&& self.left(file) == Multiset::<(u32, u32)>::empty()
                        &&& after.left(file) == self.left(file)
                    }
            },
        }
    }

    /// Brings the merge forward to the next entry, or says what has to be read first.
    pub fn step(&mut self) -> (step: DrainStep)
        requires
            old(self).wf(),
        ensures
            old(self).steps_to(*final(self), step),
    {
        let step = self.go_on();
        proof {
            lemma_awaited(*self);
            assert forall|file: Seq<u8>|
                #![trigger old(self).reads_from(file)]
                old(self).stepped(*self, step, file) by {
            }
        }
        step
    }

    /// Lists the cursors that were filled, and takes the smallest of their keys.
    fn go_on(&mut self) -> (step: DrainStep)
        requires
            old(self).wf(),
        ensures
            final(self).wf(),
            final(self).runs == old(self).runs,
            final(self).to_read() == old(self).to_read(),
            match step {
                DrainStep::Read { at, len } => final(self).awaited() == Some((at, len as int)),
                DrainStep::Emit { .. } => final(self).awaited() is None,
                DrainStep::Done { runs } => final(self).awaited() is None && runs
                    == old(self).run_cnt(),
            },
            forall|file: Seq<u8>|
                #![trigger old(self).reads_from(file)]
                old(self).stepped(*final(self), step, file),
    {
        if let Some((entry, i)) = self.held {
            return self.step_held(entry, i);
        }
        while self.filled < self.cursors.len()
            invariant
                self.wf(),
                self.held is None,
                old(self).held is None,
                self.cursors == old(self).cursors,
                self.runs == old(self).runs,
            decreases self.cursors@.len() - self.filled,
        {
            let i: usize = self.filled;
            if self.cursors[i].is_starved() {
                let (at, len) = self.cursors[i].wanted();
                proof {
                    assert forall|file: Seq<u8>|
                        #![trigger old(self).reads_from(file)]
                        old(self).reads_from(file) implies self.reads_from(file) && self.left(file)
                        == old(self).left(file) by {
                        assert(self.rests(file) =~= old(self).rests(file));
                    }
                }
                return DrainStep::Read { at, len };
            }
            let ghost before = *self;
            self.list_front(i);
            self.filled = i + 1;
            proof {
                lemma_listed(before, *self, i);
            }
        }
        let ghost listed = *self;
        let step = self.step_pop();
        proof {
            assert forall|file: Seq<u8>|
                #![trigger old(self).reads_from(file)]
                old(self).stepped(*self, step, file) by {
                assert(listed.rests(file) =~= old(self).rests(file));
                assert(listed.left(file) == old(self).left(file));
                if old(self).reads_from(file) {
                    assert(listed.reads_from(file));
                }
            }
        }
        step
    }
}

/// No cursor has more to read than all of them.
proof fn lemma_unread_has(cursors: Seq<Cursor>, i: int)
    requires
        0 <= i < cursors.len(),
    ensures
        cursors[i].unread <= unread_total(cursors),
    decreases cursors.len(),
{
    if i < cursors.len() - 1 {
        lemma_unread_has(cursors.drop_last(), i);
    }
}

/// What a drain waits for is not empty, is no more than a buffer, and is in the file.
proof fn lemma_awaited(d: Drain)
    requires
        d.wf(),
    ensures
        d.awaited() is Some ==> {
            let (at, len) = d.awaited()->0;
            &&& 0 < len <= 8 * IO_CHUNK
            &&& len <= 8 * d.to_read()
            &&& forall|file: Seq<u8>| #[trigger] d.reads_from(file) ==> at + len <= file.len()
        },
{
    if d.awaited() is Some {
        let i = d.waiting()->0;
        lemma_unread_has(d.cursors@, i as int);
        let (at, len) = d.awaited()->0;
        assert forall|file: Seq<u8>| #[trigger] d.reads_from(file) implies at + len
            <= file.len() by {
            assert(d.cursors@[i as int].fits(file));
        }
    }
}

/// What a filled cursor has next is at its front.
proof fn lemma_front_is_next(c: Cursor, file: Seq<u8>)
    requires
        c.wf(),
        !c.starved(),
        c.rest(file).len() > 0,
        c.fits(file),
    ensures
        c.front() == Some(c.rest(file)[0]),
{
    if c.pos == c.buf@.len() {
        assert(c.unread == 0);
        assert(file.subrange(c.at as int, c.at + 8 * c.unread).len() == 0);
    }
}

/// Nothing is listed, so nothing is left.
proof fn lemma_drained(d: Drain, file: Seq<u8>)
    requires
        d.wf(),
        d.reads_from(file),
        d.held is None,
        d.filled == d.cursors@.len(),
        d.heap.contents() == Multiset::<(u32, usize)>::empty(),
    ensures
        d.left(file) == Multiset::<(u32, u32)>::empty(),
{
    let rs = d.rests(file);
    assert forall|i: int| 0 <= i < rs.len() implies (#[trigger] rs[i]).len() == 0 by {
        let c = d.cursors@[i];
        assert(c.wf() && !c.starved() && c.fits(file));
        if c.rest(file).len() > 0 {
            lemma_front_is_next(c, file);
            assert(i < usize::MAX);
            let (k, j) = (c.rest(file)[0].0, i as usize);
            assert(d.listed(k, j));
            assert(d.heap.contents().count((k, j)) == 1);
        }
    }
    lemma_total_empty(rs);
}

/// The smallest listed key is the smallest of all that is left.
proof fn lemma_popped_least(d: Drain, file: Seq<u8>, key: u32, i: usize, e: (u32, u32))
    requires
        d.wf(),
        d.reads_from(file),
        d.held is None,
        d.filled == d.cursors@.len(),
        forall|other: (u32, usize)| #[trigger]
            d.heap.contents().count(other) > 0 ==> crate::heap::before((key, i), other),
        d.left(file).count(e) > 0,
    ensures
        key <= e.0,
{
    let rs = d.rests(file);
    let j = lemma_total_has(rs, e);
    let c = d.cursors@[j];
    assert(c.wf() && !c.starved() && c.fits(file));
    assert(rs[j] == c.rest(file));
    let t = choose|t: int| 0 <= t < rs[j].len() && rs[j][t] == e;
    assert(sorted(c.rest(file)));
    assert(rs[j][0].0 <= rs[j][t].0);
    lemma_front_is_next(c, file);
    let (k, at) = (rs[j][0].0, j as usize);
    assert(d.listed(k, at));
    assert(d.heap.contents().count((k, at)) == 1);
}

/// Past the entry that was taken, the merge still reads from the same file.
proof fn lemma_still_reads(before: Drain, after: Drain, file: Seq<u8>, i: usize)
    requires
        before.reads_from(file),
        i < before.cursors@.len(),
        after.cursors@.len() == before.cursors@.len(),
        forall|j: int|
            0 <= j < before.cursors@.len() && j != i ==> #[trigger] after.cursors@[j]
                == before.cursors@[j],
        after.cursors@[i as int].at == before.cursors@[i as int].at,
        after.cursors@[i as int].unread == before.cursors@[i as int].unread,
        sorted(after.cursors@[i as int].rest(file)),
        after.held is Some ==> forall|e: (u32, u32)| #[trigger]
            after.left(file).count(e) > 0 ==> ((after.held->0).0).0 <= e.0,
    ensures
        after.reads_from(file),
{
    assert forall|j: int| 0 <= j < after.cursors@.len() implies (#[trigger] after.cursors@[j]).fits(
        file,
    ) && sorted(after.cursors@[j].rest(file)) by {
        assert(before.cursors@[j].fits(file));
        if j != i {
            assert(after.cursors@[j] == before.cursors@[j]);
            assert(sorted(before.cursors@[j].rest(file)));
        }
    }
}

/// One more cursor is filled and listed.
proof fn lemma_listed(before: Drain, after: Drain, i: usize)
    requires
        before.wf(),
        before.held is None,
        i == before.filled < before.cursors@.len(),
        !before.cursors@[i as int].starved(),
        after.heap.wf(),
        after.cursors == before.cursors,
        after.held == before.held,
        after.filled == i + 1,
        forall|key: u32, j: usize|
            #![trigger after.heap.contents().count((key, j))]
            j != i ==> after.heap.contents().count((key, j)) == before.heap.contents().count(
                (key, j),
            ),
        forall|key: u32|
            #![trigger after.heap.contents().count((key, i))]
            after.heap.contents().count((key, i)) == if before.cursors@[i as int].front() is Some
                && (before.cursors@[i as int].front()->0).0 == key {
                1nat
            } else {
                0nat
            },
    ensures
        after.wf(),
{
    assert forall|key: u32, j: usize|
        #![trigger after.heap.contents().count((key, j))]
        after.heap.contents().count((key, j)) == if after.listed(key, j) {
            1nat
        } else {
            0nat
        } by {
        if j != i {
            assert(before.heap.contents().count((key, j)) == if before.listed(key, j) {
                1nat
            } else {
                0nat
            });
        }
    }
}

impl EntrySorter {
    /// What a settling call does. Where nothing was spilled there is nothing to do.
    pub open spec fn settles(self, after: EntrySorter, out: Option<Chunk>) -> bool {
        let spilled = self.run_cnt() > 0 || self.is_spilling();
        &&& out is Some <==> spilled && self.buffered() > 0 && !(self.is_spilling()
            && self.unspilled() == 0)
        &&& match out {
            Some(chunk) => self.spills(after, chunk),
            None => {
                &&& after.wf()
                &&& after.limit() == self.limit()
                &&& after.settled()
                &&& after.buffered() == if spilled {
                    0
                } else {
                    self.buffered()
                }
                &&& after.spilled() == self.spilled() + if spilled {
                    8 * self.buffered()
                } else {
                    0
                }
                &&& after.run_cnt() == self.run_cnt() + if spilled && self.buffered() > 0 {
                    1int
                } else {
                    0int
                }
                &&& self.keeps(after)
            },
        }
    }

    /// What has to go to the spill file before a drain: the rest of the entries, once others
    /// were spilled. A set that fit in the buffer stays there.
    pub fn settle(&mut self) -> (out: Option<Chunk>)
        requires
            old(self).wf(),
            old(self).spilled() + 8 * old(self).buffered() <= u64::MAX,
        ensures
            old(self).settles(*final(self), out),
    {
        if self.runs.len() == 0 && !self.spilling {
            return None;
        }
        self.flush_run()
    }

    /// Either everything is in the buffer or everything is in the spill file.
    pub open spec fn settled(&self) -> bool {
        &&& !self.is_spilling()
        &&& self.run_cnt() == 0 || self.buffered() == 0
    }

    /// `drain` has all entries of the sorter. It reads from the spill file only if there are runs
    /// in it.
    pub open spec fn drained_by(self, drain: Drain) -> bool {
        &&& drain.wf()
        &&& drain.run_cnt() == self.run_cnt()
        &&& self.run_cnt() == 0 ==> drain.to_read() == 0
        &&& forall|file: Seq<u8>|
            #![trigger self.kept_in(file)]
            self.kept_in(file) ==> drain.reads_from(file) && drain.left(file) == self.content(file)
    }

    /// Emits every entry in ascending key order, step by step. The last step tells how many
    /// spilled runs were merged, which is 0 when the whole set fit in the budget.
    pub fn drain(self) -> (drain: Drain)
        requires
            self.wf(),
            self.settled(),
        ensures
            self.drained_by(drain),
    {
        let ghost sorter = self;
        let runs = self.runs;
        let mut buf = self.buf;
        let mut cursors: Vec<Cursor> = Vec::new();
        if runs.len() == 0 {
            sort_by_key(&mut buf);
            let ghost entries = buf@;
            cursors.push(Cursor { at: 0, unread: 0, buf, pos: 0 });
            let drain = Drain { cursors, heap: MinHeap::new(), filled: 0, held: None, runs: 0 };
            proof {
                assert(drain.cursors@.drop_last() =~= Seq::empty());
                assert(unread_total(drain.cursors@.drop_last()) == 0);
                assert forall|file: Seq<u8>|
                    #![trigger sorter.kept_in(file)]
                    sorter.kept_in(file) implies drain.reads_from(file) && drain.left(file)
                    == sorter.content(file) by {
                    let c = drain.cursors@[0];
                    assert(c.rest(file) =~= entries);
                    let rs = drain.rests(file);
                    assert(rs.len() == 1 && rs[0] == entries);
                    assert(rs.drop_last() =~= Seq::empty());
                    assert(total(rs.drop_last()) == Multiset::<(u32, u32)>::empty());
                    assert(drain.left(file) =~= sorter.content(file));
                }
            }
            return drain;
        }
        let mut i: usize = 0;
        while i < runs.len()
            invariant
                i <= runs@.len(),
                runs == sorter.runs,
                sorter.wf(),
                cursors@.len() == i,
                forall|j: int|
                    0 <= j < i ==> {
                        &&& (#[trigger] cursors@[j]).wf()
                        &&& cursors@[j].at == runs@[j].0
                        &&& cursors@[j].unread == runs@[j].1
                        &&& cursors@[j].buf@.len() == 0
                        &&& cursors@[j].pos == 0
                    },
            decreases runs@.len() - i,
        {
            let (offset, count) = runs[i];
            cursors.push(Cursor::new(offset, count));
            i += 1;
        }
        let drain = Drain {
            cursors,
            heap: MinHeap::new(),
            filled: 0,
            held: None,
            runs: runs.len(),
        };
        proof {
            lemma_empty_multiset(sorter.buf@);
            assert forall|file: Seq<u8>|
                #![trigger sorter.kept_in(file)]
                sorter.kept_in(file) implies drain.reads_from(file) && drain.left(file)
                == sorter.content(file) by {
                assert forall|j: int| 0 <= j < drain.cursors@.len() implies (
                #[trigger] drain.cursors@[j]).fits(file) && drain.cursors@[j].rest(file) == run_in(
                    file,
                    runs@[j],
                ) && sorted(drain.cursors@[j].rest(file)) by {
                    assert(drain.cursors@[j].rest(file) =~= run_in(file, runs@[j]));
                    assert(sorted(run_in(file, sorter.runs@[j])));
                }
                assert(drain.rests(file) =~= runs_in(file, sorter.runs@));
                assert(drain.left(file) =~= sorter.content(file));
            }
        }
        drain
    }
}

} // verus!
