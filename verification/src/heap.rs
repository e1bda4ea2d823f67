//! A binary min-heap of pairs, ordered by the first component and then by the second.

use vstd::multiset::Multiset;
use vstd::prelude::*;

verus! {

/// `a` comes out no later than `b`.
pub open spec fn before(a: (u32, usize), b: (u32, usize)) -> bool {
    a.0 < b.0 || a.0 == b.0 && a.1 <= b.1
}

fn is_before(a: (u32, usize), b: (u32, usize)) -> (r: bool)
    ensures
        r == before(a, b),
{
    a.0 < b.0 || a.0 == b.0 && a.1 <= b.1
}

/// The smallest pair is always at the front.
pub struct MinHeap {
    items: Vec<(u32, usize)>,
}

/// The parent of slot `i` holds nothing larger.
spec fn ordered_at(s: Seq<(u32, usize)>, i: int) -> bool {
    i > 0 ==> before(s[(i - 1) / 2], s[i])
}

/// Every slot but `hole` is ordered, and what hangs below `hole` is ordered past it.
spec fn ordered_but(s: Seq<(u32, usize)>, hole: int) -> bool {
    &&& forall|i: int| 0 <= i < s.len() && i != hole ==> #[trigger] ordered_at(s, i)
    &&& forall|i: int|
        0 < i < s.len() && hole > 0 && (i - 1) / 2 == hole ==> before(
            s[(hole - 1) / 2],
            #[trigger] s[i],
        )
}

/// Every slot is ordered but those right below `hole`, and what hangs there is ordered past it.
spec fn ordered_above(s: Seq<(u32, usize)>, hole: int) -> bool {
    &&& forall|i: int|
        0 < i < s.len() && (i - 1) / 2 != hole ==> #[trigger] ordered_at(s, i)
    &&& forall|i: int|
        0 < i < s.len() && hole > 0 && (i - 1) / 2 == hole ==> before(
            s[(hole - 1) / 2],
            #[trigger] s[i],
        )
}

proof fn lemma_swap(s: Seq<(u32, usize)>, i: int, j: int)
    requires
        0 <= i < s.len(),
        0 <= j < s.len(),
        i != j,
    ensures
        s.update(i, s[j]).update(j, s[i]).to_multiset() == s.to_multiset(),
{
    broadcast use vstd::seq_lib::to_multiset_update;

    let m = s.to_multiset();
    let a = s[i];
    let b = s[j];
    let once = s.update(i, b);
    assert(once[j] == b);
    assert(m.count(a) > 0) by {
        broadcast use vstd::seq_lib::to_multiset_contains;

        assert(s.contains(a));
    }
    assert(once.update(j, a).to_multiset() =~= m.insert(b).remove(a).insert(a).remove(b));
    assert(m.insert(b).remove(a).insert(a).remove(b) =~= m);
}

/// The front is the smallest.
proof fn lemma_front(s: Seq<(u32, usize)>, i: int)
    requires
        forall|i: int| 0 <= i < s.len() ==> #[trigger] ordered_at(s, i),
        0 <= i < s.len(),
    ensures
        before(s[0], s[i]),
    decreases i,
{
    if i > 0 {
        assert(ordered_at(s, i));
        lemma_front(s, (i - 1) / 2);
    }
}

impl MinHeap {
    pub closed spec fn wf(&self) -> bool {
        forall|i: int| 0 <= i < self.items@.len() ==> #[trigger] ordered_at(self.items@, i)
    }

    /// What is in the heap.
    pub closed spec fn contents(&self) -> Multiset<(u32, usize)> {
        self.items@.to_multiset()
    }

    pub fn new() -> (heap: MinHeap)
        ensures
            heap.wf(),
            heap.contents() == Multiset::<(u32, usize)>::empty(),
    {
        broadcast use vstd::seq_lib::group_to_multiset_ensures;

        let heap = MinHeap { items: Vec::new() };
        assert(heap.contents().len() == 0);
        assert(heap.contents() =~= Multiset::<(u32, usize)>::empty());
        heap
    }

    /// Puts a pair in.
    pub fn push(&mut self, item: (u32, usize))
        requires
            old(self).wf(),
        ensures
            final(self).wf(),
            final(self).contents() == old(self).contents().insert(item),
    {
        let ghost before_push = self.items@;
        self.items.push(item);
        proof {
            broadcast use vstd::seq_lib::to_multiset_build;

            assert(self.items@ == before_push.push(item));
        }
        let mut at: usize = self.items.len() - 1;
        proof {
            assert forall|i: int|
                0 <= i < self.items@.len() && i != at implies #[trigger] ordered_at(
                self.items@,
                i,
            ) by {
                assert(ordered_at(before_push, i));
            }
        }
        while at > 0
            invariant
                at < self.items@.len(),
                ordered_but(self.items@, at as int),
                self.items@.to_multiset() == old(self).contents().insert(item),
            ensures
                self.wf(),
            decreases at,
        {
            let parent: usize = (at - 1) / 2;
            let a = self.items[parent];
            let b = self.items[at];
            if is_before(a, b) {
                assert(ordered_at(self.items@, at as int));
                break;
            }
            let ghost s = self.items@;
            self.items.set(parent, b);
            self.items.set(at, a);
            proof {
                let t = self.items@;
                lemma_swap(s, parent as int, at as int);
                assert(t =~= s.update(parent as int, b).update(at as int, a));
                assert forall|i: int| 0 <= i < t.len() && i != parent implies #[trigger] ordered_at(
                    t,
                    i,
                ) by {
                    if i != at {
                        assert(ordered_at(s, i));
                        if i > 0 && (i - 1) / 2 == at {
                            assert(before(s[parent as int], s[i]));
                        }
                    }
                }
                assert forall|i: int|
                    0 < i < t.len() && parent > 0 && (i - 1) / 2 == parent implies before(
                    t[(parent - 1) / 2],
                    #[trigger] t[i],
                ) by {
                    assert(ordered_at(s, parent as int));
                    if i != at {
                        assert(ordered_at(s, i));
                    }
                }
            }
            at = parent;
        }
    }

    /// Takes the smallest pair out.
    pub fn pop(&mut self) -> (top: Option<(u32, usize)>)
        requires
            old(self).wf(),
        ensures
            final(self).wf(),
            match top {
                None => {
                    &&& old(self).contents() == Multiset::<(u32, usize)>::empty()
                    &&& final(self).contents() == old(self).contents()
                },
                Some(item) => {
                    &&& old(self).contents().count(item) > 0
                    &&& final(self).contents() == old(self).contents().remove(item)
                    &&& forall|other: (u32, usize)| #[trigger]
                        old(self).contents().count(other) > 0 ==> before(item, other)
                },
            },
    {
        let ghost start = self.items@;
        let last = match self.items.pop() {
            None => {
                proof {
                    broadcast use vstd::seq_lib::group_to_multiset_ensures;

                    assert(self.contents().len() == 0);
                    assert(self.contents() =~= Multiset::<(u32, usize)>::empty());
                }
                return None;
            },
            Some(last) => last,
        };
        proof {
            broadcast use vstd::seq_lib::to_multiset_contains;

            assert forall|other: (u32, usize)| #[trigger]
                old(self).contents().count(other) > 0 implies before(start[0], other) by {
                assert(start.contains(other));
                let i = choose|i: int| 0 <= i < start.len() && start[i] == other;
                lemma_front(start, i);
            }
            assert(start.contains(start[0]));
        }
        let ghost rest = self.items@;
        assert(rest == start.drop_last());
        assert(start.to_multiset() == rest.to_multiset().insert(last)) by {
            broadcast use vstd::seq_lib::to_multiset_build;

            assert(start =~= rest.push(last));
        }
        if self.items.len() == 0 {
            assert(start[0] == last);
            assert(rest.to_multiset() =~= start.to_multiset().remove(last));
            return Some(last);
        }
        let top = self.items[0];
        self.items.set(0, last);
        proof {
            assert(self.items@.to_multiset() == start.to_multiset().remove(top)) by {
                broadcast use {
                    vstd::seq_lib::to_multiset_update,
                    vstd::seq_lib::to_multiset_contains,
                };

                assert(rest.contains(top));
                assert(self.items@ =~= rest.update(0, last));
                assert(rest.to_multiset().insert(last).remove(top) =~= start.to_multiset().remove(
                    top,
                ));
            }
            let t = self.items@;
            assert forall|i: int| 0 < i < t.len() && (i - 1) / 2 != 0 implies #[trigger] ordered_at(
                t,
                i,
            ) by {
                assert(ordered_at(start, i));
            }
        }
        let mut at: usize = 0;
        loop
            invariant
                at < self.items@.len(),
                ordered_above(self.items@, at as int),
                at > 0 ==> ordered_at(self.items@, at as int),
                self.items@.to_multiset() == start.to_multiset().remove(top),
                old(self).contents() == start.to_multiset(),
            ensures
                self.wf(),
                self.items@.to_multiset() == start.to_multiset().remove(top),
            decreases self.items@.len() - at,
        {
            let n: usize = self.items.len();
            if n - 1 - at <= at {
                proof {
                    assert forall|i: int| 0 <= i < self.items@.len() implies #[trigger] ordered_at(
                        self.items@,
                        i,
                    ) by {
                        if i > 0 {
                            assert((i - 1) / 2 != at);
                        }
                    }
                }
                break;
            }
            let left: usize = 2 * at + 1;
            let small: usize = if n - 1 > left && !is_before(self.items[left], self.items[left + 1]) {
                left + 1
            } else {
                left
            };
            let a = self.items[at];
            let b = self.items[small];
            if is_before(a, b) {
                proof {
                    assert forall|i: int| 0 <= i < self.items@.len() implies #[trigger] ordered_at(
                        self.items@,
                        i,
                    ) by {
                        if i > 0 && (i - 1) / 2 == at {
                            assert(i == 2 * at + 1 || i == 2 * at + 2);
                        }
                    }
                }
                break;
            }
            let ghost s = self.items@;
            self.items.set(at, b);
            self.items.set(small, a);
            proof {
                let t = self.items@;
                lemma_swap(s, at as int, small as int);
                assert(t =~= s.update(at as int, b).update(small as int, a));
                assert forall|i: int|
                    0 < i < t.len() && (i - 1) / 2 != small implies #[trigger] ordered_at(t, i) by {
                    if (i - 1) / 2 == at {
                        assert(i == 2 * at + 1 || i == 2 * at + 2);
                    } else {
                        assert(ordered_at(s, i));
                        if i == at {
                            assert(before(s[(at - 1) / 2], s[small as int]));
                        }
                    }
                }
                assert forall|i: int|
                    0 < i < t.len() && small > 0 && (i - 1) / 2 == small implies before(
                    t[(small - 1) / 2],
                    #[trigger] t[i],
                ) by {
                    assert(ordered_at(s, i));
                }
            }
            at = small;
        }
        Some(top)
    }
}

} // verus!
