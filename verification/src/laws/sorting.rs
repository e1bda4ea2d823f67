//! What a sort takes and what it gives back.

use crate::extsort::{written, Chunk, Drain, DrainStep, EntrySorter, IO_CHUNK, MIN_BUDGET_ENTRIES};
use crate::heap::before;
use crate::sorting::{
    asks, called, drained, emitted, entries_pushed, filled, law_sort, nothing_read,
    nothing_spilled, runs_for, turned, DrainCall, SortCall,
};
use vstd::math::{max, min};
use vstd::prelude::*;

verus! {

/// A sorter keeps as many entries of eight bytes in memory as its budget has room for, but never
/// fewer than 32768, and reads and writes no more than 8192 at once.
pub proof fn law_limit(sorter: EntrySorter, budget_bytes: usize)
    requires
        sorter.is_new(budget_bytes),
    ensures
        sorter.limit() == max(budget_bytes as int / 8, 32768),
        sorter.buffered() == 0,
        sorter.spilled() == 0,
        sorter.run_cnt() == 0,
        IO_CHUNK == 8192,
        MIN_BUDGET_ENTRIES == 32768,
{
}

/// A run goes to the spill file in pieces of 8192 entries, the last of what is left, one right behind
/// the other, from the end of the runs before it on.
pub proof fn law_pieces(sorter: EntrySorter, after: EntrySorter, chunk: Chunk)
    requires
        sorter.spills(after, chunk),
    ensures
        chunk.at == sorter.spilled() + 8 * (sorter.buffered() - sorter.unspilled()),
        chunk.bytes@.len() == 8 * min(8192, sorter.unspilled() as int),
        after.unspilled() == max(sorter.unspilled() - 8192, 0),
        after.buffered() == sorter.buffered(),
        after.spilled() == sorter.spilled(),
        after.is_spilling(),
{
}

/// A heap hands out the smaller first component first, and of two that are the same the smaller
/// second one.
pub proof fn law_heap_order(a: (u32, usize), b: (u32, usize))
    ensures
        a.0 < b.0 ==> before(a, b) && !before(b, a),
        a.0 == b.0 ==> (before(a, b) <==> a.1 <= b.1),
{
}

/// What a write does to the spill file: the bytes stand where they were written, and every other
/// byte is as it was.
pub proof fn law_written(file: Seq<u8>, at: int, bytes: Seq<u8>)
    requires
        0 <= at <= file.len(),
    ensures
        written(file, at, bytes).len() == max(file.len() as int, at + bytes.len()),
        written(file, at, bytes).subrange(at, at + bytes.len()) == bytes,
        forall|i: int|
            0 <= i < file.len() && !(at <= i < at + bytes.len()) ==> #[trigger] written(
                file,
                at,
                bytes,
            )[i] == file[i],
{
    assert(written(file, at, bytes).subrange(at, at + bytes.len()) =~= bytes);
}

/// The pushes that handed nothing out: with those the entry is in.
pub open spec fn entries_in_order(calls: Seq<SortCall>) -> Seq<(u32, u32)> {
    calls.filter(|c: SortCall| c is Push && c->Push_out is None).map_values(
        |c: SortCall| (c->key, c->value),
    )
}

/// The entries that came out, in that order.
pub open spec fn entries_out(turns: Seq<DrainCall>) -> Seq<(u32, u32)> {
    turns.filter(|t: DrainCall| t is Step && t->step is Emit).map_values(
        |t: DrainCall| (t->step->key, t->step->value),
    )
}

proof fn lemma_entries_in_order(calls: Seq<SortCall>)
    ensures
        entries_pushed(calls) == entries_in_order(calls),
    decreases calls.len(),
{
    reveal(Seq::filter);
    let got_in = |c: SortCall| c is Push && c->Push_out is None;
    let pair = |c: SortCall| (c->key, c->value);
    if calls.len() > 0 {
        let front = calls.drop_last();
        lemma_entries_in_order(front);
        assert(front.filter(got_in).push(calls.last()).map_values(pair) =~= front.filter(
            got_in,
        ).map_values(pair).push(pair(calls.last())));
    }
    assert(entries_pushed(calls) =~= entries_in_order(calls));
}

proof fn lemma_entries_out(turns: Seq<DrainCall>)
    ensures
        emitted(turns) == entries_out(turns),
    decreases turns.len(),
{
    reveal(Seq::filter);
    let came_out = |t: DrainCall| t is Step && t->step is Emit;
    let pair = |t: DrainCall| (t->step->key, t->step->value);
    if turns.len() > 0 {
        let front = turns.drop_last();
        lemma_entries_out(front);
        assert(front.filter(came_out).push(turns.last()).map_values(pair) =~= front.filter(
            came_out,
        ).map_values(pair).push(pair(turns.last())));
    }
    assert(emitted(turns) =~= entries_out(turns));
}

/// A sort from its first push to its last entry, with a spill file that holds what was handed out
/// for it. Every entry that got in comes out, as often as it got in, and the keys do not descend. If
/// the entries are no more than the sorter keeps in memory, nothing goes to the spill file and
/// nothing is read from it; otherwise so many runs are merged as it takes to hold them all, each but
/// the last of them as large as the memory.
pub proof fn law_sorted(
    budget_bytes: usize,
    sorters: Seq<EntrySorter>,
    files: Seq<Seq<u8>>,
    calls: Seq<SortCall>,
    drains: Seq<Drain>,
    turns: Seq<DrainCall>,
    runs: usize,
)
    requires
        // the calls of the sorter: pushes, each made again where it handed something out, then settling
        sorters.len() == calls.len() + 1,
        files.len() == sorters.len(),
        calls.len() > 0,
        sorters[0].is_new(budget_bytes),
        forall|i: int, j: int|
            #![trigger sorters[i], sorters[j]]
            0 <= i < calls.len() && j == i + 1 ==> match calls[i] {
                SortCall::Push { key, value, out } => sorters[i].pushed(
                    sorters[j],
                    key,
                    value,
                    out,
                ) && files[j] == spilled_to(files[i], out),
                SortCall::Settle { out } => sorters[i].settles(sorters[j], out) && files[j]
                    == spilled_to(files[i], out),
            },
        forall|i: int, j: int|
            0 <= i < j < calls.len() && (#[trigger] calls[i]) is Settle ==> (
            #[trigger] calls[j]) is Settle,
        forall|i: int, j: int|
            #![trigger calls[i], calls[j]]
            0 <= i < calls.len() && j == i + 1 && j < calls.len() && calls[i] is Push
                && calls[i]->Push_out is Some ==> calls[j] is Push,
        calls.last() is Settle,
        calls.last()->Settle_out is None,
        // the calls of the drain: steps, and the bytes that they ask for
        sorters.last().drained_by(drains[0]),
        drains.len() == turns.len() + 1,
        turns.len() > 0,
        forall|i: int, j: int|
            #![trigger drains[i], drains[j]]
            0 <= i < turns.len() && j == i + 1 ==> match turns[i] {
                DrainCall::Step { step } => drains[i].steps_to(drains[j], step),
                DrainCall::Supply { bytes } => {
                    &&& drains[i].awaited() is Some
                    &&& bytes == files.last().subrange(
                        (drains[i].awaited()->0).0 as int,
                        (drains[i].awaited()->0).0 + (drains[i].awaited()->0).1,
                    )
                    &&& drains[i].supplied(drains[j], bytes, true)
                },
            },
        turns.last() == (DrainCall::Step { step: DrainStep::Done { runs } }),
    ensures
        ({
            let came = entries_in_order(calls);
            let went = entries_out(turns);
            let limit = max(budget_bytes as int / 8, 32768);
            &&& went.to_multiset() == came.to_multiset()
            &&& forall|i: int, j: int|
                0 <= i <= j < went.len() ==> (#[trigger] went[i]).0 <= (#[trigger] went[j]).0
            &&& came.len() <= limit ==> {
                &&& runs == 0
                &&& forall|i: int|
                    0 <= i < calls.len() ==> match #[trigger] calls[i] {
                        SortCall::Push { out, .. } => out is None,
                        SortCall::Settle { out } => out is None,
                    }
                &&& forall|i: int|
                    0 <= i < turns.len() ==> !((#[trigger] turns[i]) is Step && turns[i]->step
                        is Read)
            }
            &&& came.len() > limit ==> limit * (runs - 1) < came.len() <= limit * runs
        }),
{
    let states = Seq::new(sorters.len(), |i: int| (sorters[i], files[i]));
    assert forall|i: int| 0 <= i < calls.len() implies called(
        states[i],
        #[trigger] calls[i],
        states[i + 1],
    ) by {
        let j = i + 1;
        assert(sorters[i] == states[i].0 && sorters[j] == states[j].0);
    }
    assert(filled(budget_bytes, states, calls)) by {
        assert(calls.last().out() is None);
        assert forall|i: int, j: int|
            #![trigger calls[i], calls[j]]
            0 <= i < calls.len() && j == i + 1 && j < calls.len() && calls[i] is Push
                && calls[i].out() is Some implies calls[j] is Push by {}
    }
    let file = files.last();
    assert(states.last() == (sorters.last(), file));
    assert forall|i: int| 0 <= i < turns.len() implies turned(
        drains[i],
        #[trigger] turns[i],
        drains[i + 1],
        file,
    ) by {
        let j = i + 1;
        assert(drains[i] == drains[i] && drains[j] == drains[j]);
    }
    assert(drained(drains, turns, file, runs));
    law_sort(budget_bytes, states, calls, drains, turns, runs);
    lemma_entries_in_order(calls);
    lemma_entries_out(turns);
    let n = entries_pushed(calls).len();
    let limit = sorters[0].limit();
    assert(states[0].0.limit() == limit);
    if n <= limit {
        assert(nothing_spilled(calls) && nothing_read(turns));
        assert forall|i: int| 0 <= i < calls.len() implies match #[trigger] calls[i] {
            SortCall::Push { out, .. } => out is None,
            SortCall::Settle { out } => out is None,
        } by {
            assert(calls[i].out() is None);
        }
        assert forall|i: int| 0 <= i < turns.len() implies !((#[trigger] turns[i]) is Step
            && turns[i]->step is Read) by {
            assert(!asks(turns[i]));
        }
    } else {
        law_runs(n, limit);
    }
}

/// The spill file after what was handed out for it is written.
pub open spec fn spilled_to(file: Seq<u8>, out: Option<Chunk>) -> Seq<u8> {
    match out {
        Some(chunk) => written(file, chunk.at as int, chunk.bytes@),
        None => file,
    }
}

/// How many runs there are: none if the entries fit in memory, and otherwise no more than hold them
/// all.
pub proof fn law_runs(n: nat, limit: nat)
    requires
        limit > 0,
    ensures
        n <= limit ==> runs_for(n, limit) == 0,
        n > limit ==> limit * (runs_for(n, limit) - 1) < n <= limit * runs_for(n, limit),
{
    if n > limit {
        let m = (n + limit - 1) as int;
        let l = limit as int;
        let r = m / l;
        vstd::arithmetic::div_mod::lemma_fundamental_div_mod(m, l);
        vstd::arithmetic::div_mod::lemma_mod_bound(m, l);
        assert(l * (r - 1) == l * r - l) by (nonlinear_arith);
    }
}

} // verus!
