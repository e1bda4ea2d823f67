//! The buffer pool: a write-back cache of tree pages with clock eviction.
//!
//! The pool does no I/O of its own. Where a page has to come in or a changed one has to go out,
//! it says so, and takes the page, or the word that it is written, when the I/O is done.

use super::page::{copy_page, page_fits, zero_page, Page, PAGE_LEN};
use super::tree::Pages;
use std::collections::HashMap;
use vstd::prelude::*;

verus! {

broadcast use vstd::std_specs::hash::group_hash_axioms;

/// A page in the pool.
pub struct Slot {
    pub id: u32,
    pub page: Box<Page>,
    pub dirty: bool,
    /// Clock reference bit.
    pub used: bool,
}

/// Write-back page cache with clock eviction.
pub struct Pool {
    pub(crate) slots: Vec<Slot>,
    pub(crate) map: HashMap<u32, usize>,
    pub(crate) hand: usize,
    pub(crate) cap: usize,
    pub(crate) reads: u64,
    pub(crate) writes: u64,
}

/// How the pool came by a page, or what it needs first.
pub enum Access {
    /// The page is in this slot.
    Ready(usize),
    /// The page has to be read.
    Read,
    /// This page has to be written before its slot can be had.
    Write(u32, Box<Page>),
}

/// Which slot the next page goes to.
enum Room {
    /// A new one.
    Fresh,
    /// One whose page is as it is on disk.
    Clean(usize),
    /// One whose page has changed since it was read.
    Dirty(usize),
}

/// The slots as the clock sees them: which page each holds, whether it was used since the hand last
/// passed it, and where the hand is.
#[verifier::ext_equal]
pub struct Clock {
    pub ids: Seq<u32>,
    pub used: Seq<bool>,
    pub hand: int,
}

/// How many of the bits are set.
pub open spec fn bits(used: Seq<bool>) -> nat
    decreases used.len(),
{
    if used.len() == 0 {
        0
    } else {
        bits(used.drop_last()) + if used.last() {
            1nat
        } else {
            0nat
        }
    }
}

/// A bit that is cleared counts no more.
pub proof fn lemma_bits(used: Seq<bool>, i: int)
    requires
        0 <= i < used.len(),
        used[i],
    ensures
        bits(used.update(i, false)) + 1 == bits(used),
    decreases used.len(),
{
    let after = used.update(i, false);
    if i < used.len() - 1 {
        assert(after.drop_last() =~= used.drop_last().update(i, false));
        lemma_bits(used.drop_last(), i);
    } else {
        assert(after.drop_last() =~= used.drop_last());
    }
}

impl Clock {
    /// The slot behind the hand.
    pub open spec fn next(self) -> int {
        if self.hand + 1 == self.ids.len() {
            0
        } else {
            self.hand + 1
        }
    }

    /// The hand moves on to the first slot that was not used, and clears the bits on its way.
    pub open spec fn swept(self) -> Clock
        decreases bits(self.used),
    {
        if 0 <= self.hand < self.used.len() && self.used[self.hand] {
            proof {
                lemma_bits(self.used, self.hand);
            }
            Clock { used: self.used.update(self.hand, false), hand: self.next(), ..self }.swept()
        } else {
            self
        }
    }

    /// Room is made for one more page: there is a slot left, or the hand finds one.
    pub open spec fn with_room(self, limit: nat) -> Clock {
        if self.ids.len() < limit {
            self
        } else {
            self.swept()
        }
    }

    /// Page `id` is used.
    pub open spec fn touched(self, id: u32) -> Clock {
        Clock { used: self.used.update(self.ids.index_of(id), true), ..self }
    }

    /// Page `id` comes in: to a new slot, or to the one under the hand, which moves on.
    pub open spec fn entered(self, id: u32, limit: nat) -> Clock {
        if self.ids.len() < limit {
            Clock { ids: self.ids.push(id), used: self.used.push(true), ..self }
        } else {
            Clock {
                ids: self.ids.update(self.hand, id),
                used: self.used.update(self.hand, true),
                hand: self.next(),
            }
        }
    }
}

/// The slot `m` places on from the hand, of `n` slots in a ring.
pub open spec fn slot_on(hand: int, m: int, n: int) -> int {
    if hand + m >= n {
        hand + m - n
    } else {
        hand + m
    }
}

/// Second chance: the hand stops at the first slot, from where it is, that was not used since it
/// last passed. The pages on its way were, and stay, but have to be used again to be spared again.
pub proof fn law_sweep(c: Clock, k: int)
    requires
        c.used.len() == c.ids.len(),
        0 <= c.hand < c.ids.len(),
        0 <= k < c.ids.len(),
        !c.used[slot_on(c.hand, k, c.ids.len() as int)],
        forall|m: int| 0 <= m < k ==> c.used[#[trigger] slot_on(c.hand, m, c.ids.len() as int)],
    ensures
        c.swept().ids == c.ids,
        c.swept().used.len() == c.used.len(),
        c.swept().hand == slot_on(c.hand, k, c.ids.len() as int),
        forall|m: int|
            0 <= m < c.ids.len() ==> c.swept().used[#[trigger] slot_on(
                c.hand,
                m,
                c.ids.len() as int,
            )] == (m >= k && c.used[slot_on(c.hand, m, c.ids.len() as int)]),
    decreases k,
{
    let n = c.ids.len() as int;
    if k == 0 {
        assert(slot_on(c.hand, 0, n) == c.hand);
        assert(c.swept() == c);
    } else {
        assert(slot_on(c.hand, 0, n) == c.hand);
        let d = Clock { used: c.used.update(c.hand, false), hand: c.next(), ..c };
        assert(c.swept() == d.swept());
        assert forall|m: int| 0 <= m < n - 1 implies #[trigger] slot_on(d.hand, m, n) == slot_on(
            c.hand,
            m + 1,
            n,
        ) by {}
        assert forall|m: int| 0 <= m < k - 1 implies d.used[#[trigger] slot_on(d.hand, m, n)] by {
            assert(c.used[slot_on(c.hand, m + 1, n)]);
        }
        assert(slot_on(d.hand, k - 1, n) == slot_on(c.hand, k, n));
        law_sweep(d, k - 1);
        assert forall|m: int| 0 <= m < n implies c.swept().used[#[trigger] slot_on(c.hand, m, n)]
            == (m >= k && c.used[slot_on(c.hand, m, n)]) by {
            if m == 0 {
                assert(slot_on(d.hand, n - 1, n) == c.hand);
            } else {
                assert(slot_on(d.hand, m - 1, n) == slot_on(c.hand, m, n));
            }
        }
    }
}

/// Where all pages were used, the hand comes back to where it was, and no page is marked any more.
pub proof fn law_sweep_all(c: Clock)
    requires
        c.used.len() == c.ids.len(),
        0 <= c.hand < c.ids.len(),
        forall|i: int| 0 <= i < c.used.len() ==> #[trigger] c.used[i],
    ensures
        c.swept().ids == c.ids,
        c.swept().hand == c.hand,
        c.swept().used == Seq::new(c.used.len(), |i: int| false),
{
    let n = c.ids.len() as int;
    let d = Clock { used: c.used.update(c.hand, false), hand: c.next(), ..c };
    assert(c.used[c.hand]);
    assert(c.swept() == d.swept());
    assert(slot_on(d.hand, n - 1, n) == c.hand);
    law_sweep(d, n - 1);
    assert forall|i: int| 0 <= i < n implies !(#[trigger] c.swept().used[i]) by {
        let m = if i >= d.hand {
            i - d.hand
        } else {
            i - d.hand + n
        };
        assert(slot_on(d.hand, m, n) == i);
        if m == n - 1 {
            assert(i == c.hand);
        }
    }
    assert(c.swept().used =~= Seq::new(c.used.len(), |i: int| false));
}

/// The pages as the index sees them: those in the pool before those on disk.
pub open spec fn overlaid(disk: Pages, cached: Pages) -> Pages {
    disk.union_prefer_right(cached)
}

/// Every page in the pool that has not changed is as it is on disk.
pub open spec fn clean_pages_match(disk: Pages, cached: Pages, dirty: Set<u32>) -> bool {
    forall|id: u32| #[trigger]
        cached.contains_key(id) && !dirty.contains(id) ==> disk.contains_key(id) && disk[id]
            == cached[id]
}

/// A page that is as it is on disk can leave the pool unseen.
pub proof fn lemma_evict_clean(disk: Pages, cached: Pages, dirty: Set<u32>, id: u32)
    requires
        clean_pages_match(disk, cached, dirty),
        cached.contains_key(id) ==> !dirty.contains(id),
    ensures
        clean_pages_match(disk, cached.remove(id), dirty),
        overlaid(disk, cached.remove(id)) == overlaid(disk, cached),
{
    assert(overlaid(disk, cached.remove(id)) =~= overlaid(disk, cached));
}

/// A page that was written is from then on as it is on disk.
pub proof fn lemma_written(disk: Pages, cached: Pages, dirty: Set<u32>, id: u32)
    requires
        clean_pages_match(disk, cached, dirty),
        cached.contains_key(id),
    ensures
        clean_pages_match(disk.insert(id, cached[id]), cached, dirty.remove(id)),
        overlaid(disk.insert(id, cached[id]), cached) == overlaid(disk, cached),
{
    assert(overlaid(disk.insert(id, cached[id]), cached) =~= overlaid(disk, cached));
}

/// A page that was read is as it is on disk.
pub proof fn lemma_read(disk: Pages, cached: Pages, dirty: Set<u32>, id: u32)
    requires
        clean_pages_match(disk, cached, dirty),
        disk.contains_key(id),
        !cached.contains_key(id),
    ensures
        clean_pages_match(disk, cached.insert(id, disk[id]), dirty),
        overlaid(disk, cached.insert(id, disk[id])) == overlaid(disk, cached),
{
    assert(overlaid(disk, cached.insert(id, disk[id])) =~= overlaid(disk, cached));
}

/// A page changed in the pool is changed for the index.
pub proof fn lemma_changed(disk: Pages, cached: Pages, dirty: Set<u32>, id: u32, p: Seq<u8>)
    requires
        clean_pages_match(disk, cached, dirty),
    ensures
        clean_pages_match(disk, cached.insert(id, p), dirty.insert(id)),
        overlaid(disk, cached.insert(id, p)) == overlaid(disk, cached).insert(id, p),
{
    assert(overlaid(disk, cached.insert(id, p)) =~= overlaid(disk, cached).insert(id, p));
}

impl Pool {
    /// The map and the slots are about the same pages, and every page is whole.
    pub closed spec fn wf(&self) -> bool {
        &&& self.cap >= 8
        &&& self.slots@.len() <= self.cap
        &&& self.hand < self.slots@.len() || self.hand == 0
        &&& forall|id: u32| #[trigger]
            self.map@.contains_key(id) ==> self.map@[id] < self.slots@.len()
                && self.slots@[self.map@[id] as int].id == id
        &&& forall|i: int|
            0 <= i < self.slots@.len() ==> self.map@.contains_key((#[trigger] self.slots@[i]).id)
                && self.map@[self.slots@[i].id] == i && page_fits(self.slots@[i].page@)
    }

    /// The pages in the pool.
    pub closed spec fn cached(&self) -> Pages {
        Map::new(
            |id: u32| self.map@.contains_key(id),
            |id: u32| self.slots@[self.map@[id] as int].page@,
        )
    }

    /// The pages in the pool that have changed since they were last on disk.
    pub closed spec fn dirty(&self) -> Set<u32> {
        Set::new(
            |id: u32| self.map@.contains_key(id) && self.slots@[self.map@[id] as int].dirty,
        )
    }

    /// The slots as the clock sees them.
    pub closed spec fn clock(&self) -> Clock {
        Clock {
            ids: Seq::new(self.slots@.len(), |i: int| self.slots@[i].id),
            used: Seq::new(self.slots@.len(), |i: int| self.slots@[i].used),
            hand: self.hand as int,
        }
    }

    /// Which page a slot holds.
    pub closed spec fn id_in(&self, slot: usize) -> u32 {
        self.slots@[slot as int].id
    }

    /// How many pages the pool may hold.
    pub closed spec fn limit(&self) -> nat {
        self.cap as nat
    }

    /// How many pages were read and written.
    pub closed spec fn stats(&self) -> (u64, u64) {
        (self.reads, self.writes)
    }

    /// The next page that comes in finds a place at once.
    pub closed spec fn has_room(&self) -> bool {
        ||| self.slots@.len() < self.cap
        ||| !self.slots@[self.hand as int].used && !self.slots@[self.hand as int].dirty
    }

    /// An empty pool for `cap` pages, but for 8 at least.
    pub fn new(cap: usize) -> (pool: Pool)
        ensures
            pool.wf(),
            pool.cached() == Map::<u32, Seq<u8>>::empty(),
            pool.dirty() == Set::<u32>::empty(),
            pool.limit() == if cap < 8 {
                8
            } else {
                cap as int
            },
            pool.stats() == (0u64, 0u64),
            pool.clock() == (Clock { ids: Seq::empty(), used: Seq::empty(), hand: 0 }),
    {
        let cap: usize = if cap < 8 {
            8
        } else {
            cap
        };
        let pool = Pool {
            slots: Vec::new(),
            map: HashMap::new(),
            hand: 0,
            cap,
            reads: 0,
            writes: 0,
        };
        assert(pool.cached() =~= Map::<u32, Seq<u8>>::empty());
        assert(pool.dirty() =~= Set::<u32>::empty());
        pool
    }

    /// The slot that the next page goes to: a new one while the pool may grow, then the first
    /// from the hand on that was not used since the hand last passed it.
    fn victim(&mut self) -> (room: Room)
        requires
            old(self).wf(),
        ensures
            final(self).wf(),
            final(self).cached() == old(self).cached(),
            final(self).dirty() == old(self).dirty(),
            final(self).limit() == old(self).limit(),
            final(self).stats() == old(self).stats(),
            final(self).clock() == old(self).clock().with_room(old(self).limit()),
            final(self).map == old(self).map,
            final(self).slots@.len() == old(self).slots@.len(),
            old(self).has_room() ==> *final(self) == *old(self) && !(room is Dirty),
            match room {
                Room::Fresh => final(self).slots@.len() < final(self).cap,
                Room::Clean(slot) => {
                    &&& final(self).slots@.len() == final(self).cap
                    &&& slot == final(self).hand < final(self).slots@.len()
                    &&& !final(self).slots@[slot as int].dirty
                    &&& !final(self).slots@[slot as int].used
                },
                Room::Dirty(slot) => {
                    &&& final(self).slots@.len() == final(self).cap
                    &&& slot == final(self).hand < final(self).slots@.len()
                    &&& final(self).slots@[slot as int].dirty
                    &&& !final(self).slots@[slot as int].used
                },
            },
    {
        if self.slots.len() < self.cap {
            return Room::Fresh;
        }
        while self.slots[self.hand].used
            invariant
                self.wf(),
                self.slots@.len() == self.cap,
                self.cached() == old(self).cached(),
                self.dirty() == old(self).dirty(),
                self.limit() == old(self).limit(),
                self.stats() == old(self).stats(),
                self.map == old(self).map,
                self.slots@.len() == old(self).slots@.len(),
                self.clock().swept() == old(self).clock().swept(),
                old(self).has_room() ==> *self == *old(self) && !self.slots@[self.hand as int].used
                    && !self.slots@[self.hand as int].dirty,
            decreases bits(self.clock().used),
        {
            let slot: usize = self.hand;
            let ghost before = self.clock();
            self.slots[slot].used = false;
            self.hand = if slot + 1 == self.slots.len() {
                0
            } else {
                slot + 1
            };
            assert(self.cached() =~= old(self).cached());
            assert(self.dirty() =~= old(self).dirty());
            proof {
                assert(before.used[slot as int]);
                lemma_bits(before.used, slot as int);
                assert(self.clock() =~= (Clock {
                    used: before.used.update(slot as int, false),
                    hand: before.next(),
                    ..before
                }));
            }
        }
        assert(!self.clock().used[self.hand as int]);
        if self.slots[self.hand].dirty {
            Room::Dirty(self.hand)
        } else {
            Room::Clean(self.hand)
        }
    }

    /// The page that leaves when the next one comes in.
    spec fn evictee(&self) -> Option<u32> {
        if self.slots@.len() < self.cap {
            None
        } else {
            Some(self.slots@[self.hand as int].id)
        }
    }

    /// The pages in the pool without the one that leaves next.
    spec fn staying(&self) -> Pages {
        match self.evictee() {
            Some(id) => self.cached().remove(id),
            None => self.cached(),
        }
    }

    /// Puts a page into the slot that is free for it.
    fn place(&mut self, id: u32, page: Box<Page>, dirty: bool) -> (slot: usize)
        requires
            old(self).wf(),
            old(self).has_room(),
            !old(self).cached().contains_key(id),
            page_fits(page@),
        ensures
            final(self).wf(),
            slot < final(self).slots@.len(),
            final(self).id_in(slot) == id,
            final(self).cached() == old(self).staying().insert(id, page@),
            final(self).dirty() == if dirty {
                old(self).dirty().insert(id)
            } else {
                old(self).dirty()
            },
            old(self).evictee() is Some ==> !old(self).dirty().contains(old(self).evictee()->0),
            final(self).clock() == old(self).clock().entered(id, old(self).limit()),
            final(self).limit() == old(self).limit(),
            final(self).stats() == old(self).stats(),
    {
        let ghost before = *self;
        if self.slots.len() < self.cap {
            let slot: usize = self.slots.len();
            self.slots.push(Slot { id, page, dirty, used: true });
            self.map.insert(id, slot);
            proof {
                assert forall|i: int| 0 <= i < self.slots@.len() implies self.map@.contains_key(
                    (#[trigger] self.slots@[i]).id,
                ) && self.map@[self.slots@[i].id] == i && page_fits(self.slots@[i].page@) by {
                    if i < slot {
                        assert(self.slots@[i] == before.slots@[i]);
                        assert(before.map@.contains_key(before.slots@[i].id));
                    }
                }
                assert(self.clock() =~= before.clock().entered(id, before.limit()));
                assert(self.cached() =~= before.cached().insert(id, page@));
                assert(self.dirty() =~= if dirty {
                    before.dirty().insert(id)
                } else {
                    before.dirty()
                });
            }
            slot
        } else {
            let slot: usize = self.hand;
            let gone: u32 = self.slots[slot].id;
            self.map.remove(&gone);
            self.slots[slot] = Slot { id, page, dirty, used: true };
            self.map.insert(id, slot);
            self.hand = if slot + 1 == self.slots.len() {
                0
            } else {
                slot + 1
            };
            proof {
                assert(before.map@.contains_key(before.slots@[slot as int].id));
                assert forall|i: int| 0 <= i < self.slots@.len() implies self.map@.contains_key(
                    (#[trigger] self.slots@[i]).id,
                ) && self.map@[self.slots@[i].id] == i && page_fits(self.slots@[i].page@) by {
                    if i != slot {
                        assert(self.slots@[i] == before.slots@[i]);
                        assert(before.map@.contains_key(before.slots@[i].id));
                    }
                }
                assert forall|k: u32| #[trigger] self.map@.contains_key(k) implies self.map@[k]
                    < self.slots@.len() && self.slots@[self.map@[k] as int].id == k by {
                    if k != id {
                        assert(before.map@.contains_key(k));
                        assert(before.slots@[before.map@[k] as int].id == k);
                    }
                }
                assert(self.clock() =~= before.clock().entered(id, before.limit()));
                assert(self.cached() =~= before.cached().remove(gone).insert(id, page@));
                assert(self.dirty() =~= if dirty {
                    before.dirty().insert(id)
                } else {
                    before.dirty()
                });
            }
            slot
        }
    }

    /// The clock after page `id` was asked for, whether it is there or not. It is `there` in the
    /// end if it was, or if it came in.
    pub open spec fn clock_after(&self, id: u32, there: bool) -> Clock {
        let room = self.clock().with_room(self.limit());
        if self.cached().contains_key(id) {
            self.clock().touched(id)
        } else if there {
            room.entered(id, self.limit())
        } else {
            room
        }
    }

    /// A slot with page `id` in it, or what has to be done before there is one. A page that is
    /// not on disk yet is not read in: it is all zeros.
    pub fn slot_for(&mut self, id: u32, load: bool) -> (access: Access)
        requires
            old(self).wf(),
        ensures
            final(self).wf(),
            final(self).limit() == old(self).limit(),
            final(self).stats() == old(self).stats(),
            match access {
                Access::Ready(slot) => {
                    &&& final(self).holds(slot)
                    &&& final(self).id_in(slot) == id
                    &&& old(self).cached().contains_key(id) ==> final(self).cached() == old(
                        self,
                    ).cached() && final(self).dirty() == old(self).dirty()
                    &&& !old(self).cached().contains_key(id) ==> !load && forall|disk: Pages|
                        #![trigger overlaid(disk, final(self).cached())]
                        clean_pages_match(disk, old(self).cached(), old(self).dirty()) ==> {
                            &&& clean_pages_match(disk, final(self).cached(), final(self).dirty())
                            &&& overlaid(disk, final(self).cached()) == overlaid(
                                disk,
                                old(self).cached(),
                            ).insert(id, Seq::new(PAGE_LEN as nat, |i: int| 0u8))
                        }
                },
                Access::Read => {
                    &&& load
                    &&& !old(self).cached().contains_key(id)
                    &&& final(self).has_room()
                    &&& final(self).cached() == old(self).cached()
                    &&& final(self).dirty() == old(self).dirty()
                },
                Access::Write(out, page) => {
                    &&& !old(self).cached().contains_key(id)
                    &&& old(self).cached().contains_key(out)
                    &&& old(self).dirty().contains(out)
                    &&& page@ == old(self).cached()[out]
                    &&& final(self).cached() == old(self).cached()
                    &&& final(self).dirty() == old(self).dirty()
                },
            },
            final(self).clock() == old(self).clock_after(id, access is Ready),
            access is Write ==> access->Write_0 == final(self).clock().ids[final(self).clock().hand],
            !load && old(self).has_room() ==> access is Ready,
            load && old(self).has_room() ==> !(access is Write),
    {
        if let Some(found) = self.map.get(&id) {
            let slot: usize = *found;
            self.slots[slot].used = true;
            proof {
                let ids = old(self).clock().ids;
                let i = ids.index_of(id);
                assert(ids[slot as int] == id);
                assert(ids.contains(id));
                assert(old(self).map@[old(self).slots@[i].id] == i);
                assert(self.clock() =~= old(self).clock().touched(id));
            }
            assert(self.cached() =~= old(self).cached());
            assert(self.dirty() =~= old(self).dirty());
            return Access::Ready(slot);
        }
        let room = self.victim();
        if let Room::Dirty(slot) = room {
            let out: u32 = self.slots[slot].id;
            let page = copy_page(&self.slots[slot].page);
            assert(self.map@.contains_key(self.slots@[slot as int].id));
            return Access::Write(out, page);
        }
        if load {
            return Access::Read;
        }
        let ghost mid = *self;
        let slot: usize = self.place(id, zero_page(), true);
        proof {
            let zeros = Seq::new(PAGE_LEN as nat, |i: int| 0u8);
            assert forall|disk: Pages|
                #![trigger overlaid(disk, self.cached())]
                clean_pages_match(disk, old(self).cached(), old(self).dirty()) implies {
                &&& clean_pages_match(disk, self.cached(), self.dirty())
                &&& overlaid(disk, self.cached()) == overlaid(disk, old(self).cached()).insert(
                    id,
                    zeros,
                )
            } by {
                if mid.evictee() is Some {
                    lemma_evict_clean(disk, mid.cached(), mid.dirty(), mid.evictee()->0);
                }
                lemma_changed(disk, mid.staying(), mid.dirty(), id, zeros);
            }
        }
        Access::Ready(slot)
    }

    /// There is such a slot, and its page is in the pool.
    pub closed spec fn holds(&self, slot: usize) -> bool {
        slot < self.slots@.len()
    }

    pub proof fn lemma_holds(&self, slot: usize)
        requires
            self.wf(),
            self.holds(slot),
        ensures
            self.cached().contains_key(self.id_in(slot)),
            page_fits(self.cached()[self.id_in(slot)]),
    {
        assert(self.map@.contains_key(self.slots@[slot as int].id));
    }

    /// The page in a slot.
    pub fn page(&self, slot: usize) -> (page: &Page)
        requires
            self.wf(),
            self.holds(slot),
        ensures
            self.cached().contains_key(self.id_in(slot)),
            page@ == self.cached()[self.id_in(slot)],
            page_fits(page@),
    {
        proof {
            self.lemma_holds(slot);
        }
        &self.slots[slot].page
    }

    /// Changes the page in a slot.
    pub fn store(&mut self, slot: usize, page: Page)
        requires
            old(self).wf(),
            old(self).holds(slot),
            page_fits(page@),
        ensures
            final(self).wf(),
            final(self).cached() == old(self).cached().insert(old(self).id_in(slot), page@),
            final(self).dirty() == old(self).dirty().insert(old(self).id_in(slot)),
            final(self).clock() == old(self).clock(),
            final(self).limit() == old(self).limit(),
            final(self).stats() == old(self).stats(),
    {
        let ghost before = *self;
        proof {
            self.lemma_holds(slot);
        }
        self.slots[slot].page = Box::new(page);
        self.slots[slot].dirty = true;
        proof {
            let id = before.slots@[slot as int].id;
            assert(before.map@[id] == slot);
            assert forall|k: u32| #[trigger] self.map@.contains_key(k) && k != id implies self.map@[k]
                != slot by {
                assert(before.slots@[before.map@[k] as int].id == k);
            }
            assert forall|i: int| 0 <= i < self.slots@.len() implies self.map@.contains_key(
                (#[trigger] self.slots@[i]).id,
            ) && self.map@[self.slots@[i].id] == i && page_fits(self.slots@[i].page@) by {
                assert(before.map@.contains_key(before.slots@[i].id));
            }
            assert(self.cached() =~= before.cached().insert(id, page@));
            assert(self.dirty() =~= before.dirty().insert(id));
            assert(self.clock() =~= before.clock());
        }
    }

    /// Takes in a page that was read. Tells whether it found a place.
    pub fn take_in(&mut self, id: u32, page: &Page) -> (taken: bool)
        requires
            old(self).wf(),
            page_fits(page@),
            old(self).stats().0 < u64::MAX,
        ensures
            final(self).wf(),
            final(self).limit() == old(self).limit(),
            final(self).dirty() == old(self).dirty(),
            final(self).clock() == if old(self).cached().contains_key(id) {
                old(self).clock()
            } else {
                old(self).clock_after(id, taken)
            },
            old(self).has_room() && !old(self).cached().contains_key(id) ==> taken,
            old(self).cached().contains_key(id) ==> !taken,
            !taken ==> final(self).cached() == old(self).cached() && final(self).stats() == old(
                self,
            ).stats(),
            taken ==> {
                &&& final(self).cached().contains_key(id)
                &&& final(self).cached()[id] == page@
                &&& final(self).stats().0 == old(self).stats().0 + 1
                &&& final(self).stats().1 == old(self).stats().1
                &&& forall|disk: Pages|
                    #![trigger overlaid(disk, final(self).cached())]
                    clean_pages_match(disk, old(self).cached(), old(self).dirty())
                        && disk.contains_key(id) && disk[id] == page@ ==> {
                        &&& clean_pages_match(disk, final(self).cached(), final(self).dirty())
                        &&& overlaid(disk, final(self).cached()) == overlaid(
                            disk,
                            old(self).cached(),
                        )
                    }
            },
    {
        if self.map.contains_key(&id) {
            return false;
        }
        let room = self.victim();
        if let Room::Dirty(_) = room {
            return false;
        }
        let ghost mid = *self;
        self.place(id, copy_page(page), false);
        let ghost placed = *self;
        self.reads = self.reads + 1;
        proof {
            assert(self.cached() =~= placed.cached());
            assert(self.dirty() =~= placed.dirty());
            assert(self.clock() =~= placed.clock());
            assert forall|disk: Pages|
                #![trigger overlaid(disk, self.cached())]
                clean_pages_match(disk, old(self).cached(), old(self).dirty())
                    && disk.contains_key(id) && disk[id] == page@ implies {
                &&& clean_pages_match(disk, self.cached(), self.dirty())
                &&& overlaid(disk, self.cached()) == overlaid(disk, old(self).cached())
            } by {
                if mid.evictee() is Some {
                    lemma_evict_clean(disk, mid.cached(), mid.dirty(), mid.evictee()->0);
                }
                lemma_read(disk, mid.staying(), mid.dirty(), id);
            }
        }
        true
    }

    /// Takes notice that a page was written as it is. Tells whether the page is in the pool.
    pub fn mark_written(&mut self, id: u32) -> (found: bool)
        requires
            old(self).wf(),
            old(self).stats().1 < u64::MAX,
        ensures
            final(self).wf(),
            final(self).limit() == old(self).limit(),
            final(self).cached() == old(self).cached(),
            final(self).dirty() == old(self).dirty().remove(id),
            final(self).clock() == old(self).clock(),
            found == old(self).cached().contains_key(id),
            final(self).stats().0 == old(self).stats().0,
            final(self).stats().1 == old(self).stats().1 + if found {
                1int
            } else {
                0int
            },
    {
        let ghost before = *self;
        match self.map.get(&id) {
            Some(found) => {
                let slot: usize = *found;
                self.slots[slot].dirty = false;
                self.writes = self.writes + 1;
                proof {
                    assert forall|k: u32| #[trigger] self.map@.contains_key(k) && k
                        != id implies self.map@[k] != slot by {
                        assert(before.slots@[before.map@[k] as int].id == k);
                    }
                    assert forall|i: int| 0 <= i < self.slots@.len() implies self.map@.contains_key(
                        (#[trigger] self.slots@[i]).id,
                    ) && self.map@[self.slots@[i].id] == i && page_fits(self.slots@[i].page@) by {
                        assert(before.map@.contains_key(before.slots@[i].id));
                    }
                    assert(self.cached() =~= before.cached());
                    assert(self.dirty() =~= before.dirty().remove(id));
                    assert(self.clock() =~= before.clock());
                }
                true
            },
            None => {
                assert(self.dirty() =~= before.dirty().remove(id));
                false
            },
        }
    }

    /// A page that has changed since it was last on disk, if there is one.
    pub fn next_dirty(&self) -> (found: Option<(u32, Box<Page>)>)
        requires
            self.wf(),
        ensures
            match found {
                Some((id, page)) => {
                    &&& self.cached().contains_key(id)
                    &&& self.dirty().contains(id)
                    &&& page@ == self.cached()[id]
                },
                None => self.dirty() == Set::<u32>::empty(),
            },
    {
        let mut slot: usize = 0;
        while slot < self.slots.len()
            invariant
                self.wf(),
                slot <= self.slots@.len(),
                forall|i: int| 0 <= i < slot ==> !(#[trigger] self.slots@[i]).dirty,
            decreases self.slots@.len() - slot,
        {
            if self.slots[slot].dirty {
                proof {
                    self.lemma_holds(slot);
                }
                return Some((self.slots[slot].id, copy_page(&self.slots[slot].page)));
            }
            slot += 1;
        }
        assert(self.dirty() =~= Set::<u32>::empty());
        None
    }

    /// How many pages were read and written.
    pub fn counts(&self) -> (counts: (u64, u64))
        ensures
            counts == self.stats(),
    {
        (self.reads, self.writes)
    }
}

} // verus!
