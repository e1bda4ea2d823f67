//! The external sort from the first push to the last entry that it emits.

use vstd::multiset::Multiset;
use vstd::prelude::*;

use crate::extsort::{sorted, written, Chunk, Drain, DrainStep, EntrySorter};

verus! {

/// A call of a sorter, and what it handed out for the spill file.
pub enum SortCall {
    Push { key: u32, value: u32, out: Option<Chunk> },
    Settle { out: Option<Chunk> },
}

impl SortCall {
    /// What the call handed out for the spill file.
    pub open spec fn out(self) -> Option<Chunk> {
        match self {
            SortCall::Push { out, .. } => out,
            SortCall::Settle { out } => out,
        }
    }
}

/// A call of a drain.
pub enum DrainCall {
    Step { step: DrainStep },
    Supply { bytes: Seq<u8> },
}

/// The spill file once what was handed out for it is written.
pub open spec fn with_chunk(file: Seq<u8>, out: Option<Chunk>) -> Seq<u8> {
    match out {
        Some(chunk) => written(file, chunk.at as int, chunk.bytes@),
        None => file,
    }
}

/// A sorter and its spill file before and after a call.
pub open spec fn called(
    before: (EntrySorter, Seq<u8>),
    call: SortCall,
    after: (EntrySorter, Seq<u8>),
) -> bool {
    &&& after.1 == with_chunk(before.1, call.out())
    &&& match call {
        SortCall::Push { key, value, out } => before.0.pushed(after.0, key, value, out),
        SortCall::Settle { out } => before.0.settles(after.0, out),
    }
}

/// The entries that got into the sorter, in the order of the pushes.
pub open spec fn entries_pushed(calls: Seq<SortCall>) -> Seq<(u32, u32)>
    decreases calls.len(),
{
    if calls.len() == 0 {
        Seq::empty()
    } else {
        let before = entries_pushed(calls.drop_last());
        match calls.last() {
            SortCall::Push { key, value, out: None } => before.push((key, value)),
            _ => before,
        }
    }
}

/// No call handed anything out for the spill file.
pub open spec fn nothing_spilled(calls: Seq<SortCall>) -> bool {
    forall|i: int| 0 <= i < calls.len() ==> (#[trigger] calls[i]).out() is None
}

/// A use of a sorter: what it goes through from the first call to the last. Pushes come first, and
/// one that handed something out is made again. Then it is settled.
pub open spec fn filled(
    budget_bytes: usize,
    states: Seq<(EntrySorter, Seq<u8>)>,
    calls: Seq<SortCall>,
) -> bool {
    &&& states.len() == calls.len() + 1
    &&& states[0].0.is_new(budget_bytes)
    &&& forall|i: int|
        0 <= i < calls.len() ==> called(states[i], #[trigger] calls[i], states[i + 1])
    &&& forall|i: int, j: int|
        0 <= i < j < calls.len() && (#[trigger] calls[i]) is Settle ==> (#[trigger] calls[j]) is Settle
    &&& forall|i: int, j: int|
        #![trigger calls[i], calls[j]]
        0 <= i < calls.len() && j == i + 1 && j < calls.len() && calls[i] is Push
            && calls[i].out() is Some ==> calls[j] is Push
    &&& calls.len() > 0
    &&& calls.last() is Settle
    &&& calls.last().out() is None
}

/// A drain before and after a call, over a spill file.
pub open spec fn turned(before: Drain, call: DrainCall, after: Drain, file: Seq<u8>) -> bool {
    match call {
        DrainCall::Step { step } => before.steps_to(after, step),
        DrainCall::Supply { bytes } => {
            &&& before.awaited() is Some
            &&& bytes == file.subrange(
                (before.awaited()->0).0 as int,
                (before.awaited()->0).0 + (before.awaited()->0).1,
            )
            &&& before.supplied(after, bytes, true)
        },
    }
}

/// The entries that were emitted, in that order.
pub open spec fn emitted(calls: Seq<DrainCall>) -> Seq<(u32, u32)>
    decreases calls.len(),
{
    if calls.len() == 0 {
        Seq::empty()
    } else {
        let before = emitted(calls.drop_last());
        match calls.last() {
            DrainCall::Step { step: DrainStep::Emit { key, value } } => before.push((key, value)),
            _ => before,
        }
    }
}

/// The call asks for bytes of the spill file.
pub open spec fn asks(call: DrainCall) -> bool {
    match call {
        DrainCall::Step { step } => step is Read,
        DrainCall::Supply { .. } => false,
    }
}

/// No call asks for bytes of the spill file.
pub open spec fn nothing_read(calls: Seq<DrainCall>) -> bool {
    forall|i: int| 0 <= i < calls.len() ==> !asks(#[trigger] calls[i])
}

/// A use of a drain: what it goes through until it is done.
pub open spec fn drained(
    drains: Seq<Drain>,
    calls: Seq<DrainCall>,
    file: Seq<u8>,
    runs: usize,
) -> bool {
    &&& drains.len() == calls.len() + 1
    &&& forall|i: int|
        0 <= i < calls.len() ==> turned(drains[i], #[trigger] calls[i], drains[i + 1], file)
    &&& calls.len() > 0
    &&& calls.last() == (DrainCall::Step { step: DrainStep::Done { runs } })
}

/// How many runs `n` entries make where the buffer takes `limit`: none if they fit in it.
pub open spec fn runs_for(n: nat, limit: nat) -> nat {
    if n <= limit {
        0
    } else {
        (n + limit - 1) as nat / limit
    }
}

/// So many full runs and one more, which is not empty.
proof fn lemma_runs_for(n: nat, limit: nat, full: nat, last: nat)
    requires
        full > 0,
        0 < last <= limit,
        n == full * limit + last,
    ensures
        n > limit,
        runs_for(n, limit) == full + 1,
{
    let whole = full as int;
    let l = limit as int;
    assert(whole * l >= l) by (nonlinear_arith)
        requires
            whole >= 1,
            l > 0,
    ;
    let m = n + limit - 1;
    assert(m == (whole + 1) * l + (last - 1)) by (nonlinear_arith)
        requires
            m == whole * l + last + l - 1,
    ;
    vstd::arithmetic::div_mod::lemma_fundamental_div_mod_converse(m, l, whole + 1, last - 1);
}

/// What is known of a sorter after some calls.
spec fn under_way(state: (EntrySorter, Seq<u8>), calls: Seq<SortCall>, limit: nat) -> bool {
    let s = state.0;
    let n = entries_pushed(calls).len();
    &&& limit > 0
    &&& s.limit() == limit
    &&& s.kept_in(state.1)
    &&& s.content(state.1) == entries_pushed(calls).to_multiset()
    &&& s.run_cnt() == 0 && !s.is_spilling() ==> nothing_spilled(calls)
    &&& s.buffered() <= limit
    &&& if calls.len() == 0 || calls.last() is Push {
        &&& n == s.run_cnt() * limit + s.buffered()
        &&& s.run_cnt() > 0 ==> s.buffered() > 0
        &&& s.is_spilling() ==> s.buffered() == limit
        &&& calls.len() > 0 && calls.last().out() is None ==> !s.is_spilling()
        &&& calls.len() == 0 ==> !s.is_spilling()
    } else {
        ||| s.run_cnt() == 0 && !s.is_spilling() && n == s.buffered()
        ||| s.run_cnt() > 0 && s.buffered() > 0 && n == s.run_cnt() * limit + s.buffered()
        ||| s.buffered() == 0 && !s.is_spilling() && n > limit && s.run_cnt() == runs_for(
            n,
            limit,
        )
    }
}

/// A push keeps what is known.
proof fn lemma_push_under_way(
    before: (EntrySorter, Seq<u8>),
    after: (EntrySorter, Seq<u8>),
    calls: Seq<SortCall>,
    limit: nat,
)
    requires
        calls.len() > 0,
        calls.last() is Push,
        calls.len() > 1 ==> calls[calls.len() - 2] is Push,
        under_way(before, calls.drop_last(), limit),
        called(before, calls.last(), after),
    ensures
        under_way(after, calls, limit),
{
    broadcast use vstd::seq_lib::to_multiset_build;

    let so_far = calls.drop_last();
    let s = before.0;
    let t = after.0;
    assert(s.kept_in(before.1));
    assert(so_far.len() > 0 ==> so_far.last() == calls[calls.len() - 2]);
    if calls.last().out() is None {
        assert(t.content(after.1) == entries_pushed(calls).to_multiset());
        let (r, l) = (s.run_cnt() as int, limit as int);
        assert((r + 1) * l == r * l + l) by (nonlinear_arith);
        if t.run_cnt() == 0 {
            assert forall|i: int| 0 <= i < calls.len() implies (#[trigger] calls[i]).out()
                is None by {
                if i < so_far.len() {
                    assert(so_far[i].out() is None);
                }
            }
        }
    }
}

/// So does a settling call.
proof fn lemma_settle_under_way(
    before: (EntrySorter, Seq<u8>),
    after: (EntrySorter, Seq<u8>),
    calls: Seq<SortCall>,
    limit: nat,
)
    requires
        calls.len() > 0,
        calls.last() is Settle,
        calls.len() > 1 && calls[calls.len() - 2] is Push ==> calls[calls.len() - 2].out() is None,
        under_way(before, calls.drop_last(), limit),
        called(before, calls.last(), after),
    ensures
        under_way(after, calls, limit),
{
    let so_far = calls.drop_last();
    let s = before.0;
    let t = after.0;
    assert(s.kept_in(before.1));
    assert(so_far.len() > 0 ==> so_far.last() == calls[calls.len() - 2]);
    let n = entries_pushed(calls).len();
    let (r, l) = (s.run_cnt() as int, limit as int);
    assert(0 * l == 0);
    if calls.last().out() is None {
        if s.run_cnt() > 0 && s.buffered() > 0 {
            assert((r + 1) * l == r * l + l) by (nonlinear_arith);
            lemma_runs_for(n, limit, s.run_cnt(), s.buffered());
        }
        if t.run_cnt() == 0 {
            assert forall|i: int| 0 <= i < calls.len() implies (#[trigger] calls[i]).out()
                is None by {
                if i < so_far.len() {
                    assert(so_far[i].out() is None);
                }
            }
        }
    }
}

/// Whatever the calls, the sorter has what was pushed.
proof fn lemma_filled(
    budget_bytes: usize,
    states: Seq<(EntrySorter, Seq<u8>)>,
    calls: Seq<SortCall>,
    k: int,
)
    requires
        filled(budget_bytes, states, calls),
        0 <= k <= calls.len(),
    ensures
        under_way(states[k], calls.take(k), states[0].0.limit()),
    decreases k,
{
    let limit = states[0].0.limit();
    if k == 0 {
        broadcast use vstd::seq_lib::to_multiset_len;

        let file = states[0].1;
        assert(states[0].0.content(file) == Multiset::<(u32, u32)>::empty());
        assert(0 * limit == 0);
        assert(entries_pushed(calls.take(0)) == Seq::<(u32, u32)>::empty());
        assert(Seq::<(u32, u32)>::empty().to_multiset().len() == 0);
        assert(Seq::<(u32, u32)>::empty().to_multiset() =~= Multiset::empty());
    } else {
        lemma_filled(budget_bytes, states, calls, k - 1);
        let now = calls.take(k);
        assert(now.drop_last() =~= calls.take(k - 1));
        assert(called(states[k - 1], calls[k - 1], states[k]));
        if k > 1 {
            assert(now[k - 2] == calls[k - 2]);
            assert(calls[k - 2] is Settle ==> calls[k - 1] is Settle);
        }
        if calls[k - 1] is Push {
            lemma_push_under_way(states[k - 1], states[k], now, limit);
        } else {
            lemma_settle_under_way(states[k - 1], states[k], now, limit);
        }
    }
}

/// Whatever the calls, what was emitted and what is left are what there was, and what was emitted
/// is in order.
proof fn lemma_drained(drains: Seq<Drain>, calls: Seq<DrainCall>, file: Seq<u8>, runs: usize, k: int)
    requires
        drained(drains, calls, file, runs),
        drains[0].reads_from(file),
        0 <= k <= calls.len(),
    ensures
        drains[k].run_cnt() == drains[0].run_cnt(),
        drains[k].to_read() <= drains[0].to_read(),
        drains[k].reads_from(file),
        in_order(emitted(calls.take(k)), drains[k].left(file), drains[0].left(file)),
    decreases k,
{
    if k == 0 {
        broadcast use vstd::seq_lib::to_multiset_len;

        let none = Seq::<(u32, u32)>::empty();
        assert(emitted(calls.take(0)) == none);
        assert(none.to_multiset().len() == 0);
        assert(none.to_multiset() =~= Multiset::empty());
        assert(drains[0].left(file).add(none.to_multiset()) =~= drains[0].left(file));
    } else {
        lemma_drained(drains, calls, file, runs, k - 1);
        let now = calls.take(k);
        assert(now.drop_last() =~= calls.take(k - 1));
        assert(now.last() == calls[k - 1]);
        assert(turned(drains[k - 1], calls[k - 1], drains[k], file));
        if let DrainCall::Step { step: DrainStep::Emit { key, value } } = calls[k - 1] {
            lemma_emit(
                emitted(calls.take(k - 1)),
                drains[k - 1].left(file),
                drains[0].left(file),
                (key, value),
            );
        }
    }
}

/// What was emitted is sorted, nothing that is left comes before it, and both together are all.
spec fn in_order(
    out: Seq<(u32, u32)>,
    left: Multiset<(u32, u32)>,
    all: Multiset<(u32, u32)>,
) -> bool {
    &&& sorted(out)
    &&& all == left.add(out.to_multiset())
    &&& out.len() > 0 ==> forall|e: (u32, u32)| #[trigger] left.count(e) > 0 ==> out.last().0 <= e.0
}

/// The smallest of what is left goes out.
proof fn lemma_emit(
    out: Seq<(u32, u32)>,
    left: Multiset<(u32, u32)>,
    all: Multiset<(u32, u32)>,
    entry: (u32, u32),
)
    requires
        in_order(out, left, all),
        left.count(entry) > 0,
        forall|e: (u32, u32)| #[trigger] left.count(e) > 0 ==> entry.0 <= e.0,
    ensures
        in_order(out.push(entry), left.remove(entry), all),
{
    broadcast use vstd::seq_lib::to_multiset_build;

    let after = out.push(entry);
    assert forall|i: int, j: int| 0 <= i <= j < after.len() implies after[i].0 <= after[j].0 by {
        if j == out.len() && i < j {
            assert(out[i].0 <= out.last().0);
        }
    }
    assert(left.remove(entry).add(after.to_multiset()) =~= left.add(out.to_multiset()));
}

/// What a sorter has come to when it is settled.
proof fn lemma_settled(
    budget_bytes: usize,
    states: Seq<(EntrySorter, Seq<u8>)>,
    calls: Seq<SortCall>,
)
    requires
        filled(budget_bytes, states, calls),
    ensures
        states.last().0.kept_in(states.last().1),
        states.last().0.content(states.last().1) == entries_pushed(calls).to_multiset(),
        states.last().0.run_cnt() == runs_for(entries_pushed(calls).len(), states[0].0.limit()),
        states.last().0.run_cnt() == 0 ==> nothing_spilled(calls),
{
    let k = calls.len() as int;
    lemma_filled(budget_bytes, states, calls, k);
    assert(calls.take(k) =~= calls);
    assert(states.last() == states[k]);
    assert(called(states[k - 1], calls[k - 1], states[k]));
    assert(calls.last() == calls[k - 1]);
    assert(states[k].0.settled());
}

/// What a drain has emitted when it is done.
proof fn lemma_done(drains: Seq<Drain>, calls: Seq<DrainCall>, file: Seq<u8>, runs: usize)
    requires
        drained(drains, calls, file, runs),
        drains[0].reads_from(file),
    ensures
        sorted(emitted(calls)),
        emitted(calls).to_multiset() == drains[0].left(file),
        runs == drains[0].run_cnt(),
        drains[0].to_read() == 0 ==> nothing_read(calls),
{
    let k = calls.len() as int;
    lemma_drained(drains, calls, file, runs, k);
    assert(calls.take(k) =~= calls);
    lemma_drained(drains, calls, file, runs, k - 1);
    assert(turned(drains[k - 1], calls[k - 1], drains[k], file));
    assert(drains[k].left(file) == Multiset::<(u32, u32)>::empty());
    assert(drains[0].left(file) =~= emitted(calls).to_multiset());
    if drains[0].to_read() == 0 {
        assert forall|i: int| 0 <= i < calls.len() implies !asks(#[trigger] calls[i]) by {
            lemma_drained(drains, calls, file, runs, i);
            assert(turned(drains[i], calls[i], drains[i + 1], file));
        }
    }
}

/// Whatever is pushed comes out again, every entry as often as it was pushed, in ascending key
/// order. The number of runs follows from the number of entries. A set that fits in the budget
/// makes none: nothing is written to the spill file, and nothing is read from it.
pub proof fn law_sort(
    budget_bytes: usize,
    states: Seq<(EntrySorter, Seq<u8>)>,
    calls: Seq<SortCall>,
    drains: Seq<Drain>,
    turns: Seq<DrainCall>,
    runs: usize,
)
    requires
        filled(budget_bytes, states, calls),
        states.last().0.drained_by(drains[0]),
        drained(drains, turns, states.last().1, runs),
    ensures
        sorted(emitted(turns)),
        emitted(turns).to_multiset() == entries_pushed(calls).to_multiset(),
        runs == runs_for(entries_pushed(calls).len(), states[0].0.limit()),
        entries_pushed(calls).len() <= states[0].0.limit() ==> nothing_spilled(calls)
            && nothing_read(turns),
{
    lemma_settled(budget_bytes, states, calls);
    assert(states.last().0.kept_in(states.last().1));
    lemma_done(drains, turns, states.last().1, runs);
}

} // verus!
