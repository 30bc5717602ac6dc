//! A binary heap of eviction candidates, cheapest first.

use vstd::multiset::Multiset;
use vstd::prelude::*;

verus! {

/// A block offered for eviction. `key` and `stamp` are the block's priority
/// and the access that set it, at the moment it was offered.
#[derive(Clone, Copy, Debug, PartialEq, Eq, Structural)]
pub struct Candidate {
    pub key: u64,
    pub stamp: u64,
    pub name: u128,
}

impl Candidate {
    /// Lower priority goes first; among equals the one used longest ago, then
    /// the lower name.
    pub open spec fn before(self, other: Candidate) -> bool {
        ||| self.key < other.key
        ||| self.key == other.key && self.stamp < other.stamp
        ||| self.key == other.key && self.stamp == other.stamp && self.name < other.name
    }

    pub fn goes_before(&self, other: &Candidate) -> (yes: bool)
        ensures
            yes == self.before(*other),
    {
        if self.key != other.key {
            self.key < other.key
        } else if self.stamp != other.stamp {
            self.stamp < other.stamp
        } else {
            self.name < other.name
        }
    }
}

pub struct CandidateHeap {
    items: Vec<Candidate>,
}

spec fn parent_of(i: int) -> int {
    (i - 1) / 2
}

/// Item `i` does not go before the item above it.
spec fn settled(items: Seq<Candidate>, i: int) -> bool {
    !items[i].before(items[parent_of(i)])
}

proof fn lemma_swap_keeps_items(items: Seq<Candidate>, i: int, j: int)
    requires
        0 <= i < items.len(),
        0 <= j < items.len(),
    ensures
        items.update(i, items[j]).update(j, items[i]).to_multiset() == items.to_multiset(),
{
    broadcast use vstd::seq_lib::group_to_multiset_ensures;
    broadcast use vstd::multiset::group_multiset_properties;

    if i == j {
        assert(items.update(i, items[j]).update(j, items[i]) =~= items);
    } else {
        let mid = items.update(i, items[j]);
        vstd::seq_lib::to_multiset_update(items, i, items[j]);
        vstd::seq_lib::to_multiset_update(mid, j, items[i]);
        assert(items.contains(items[i]));
        assert(mid.update(j, items[i]).to_multiset() =~= items.to_multiset());
    }
}

impl View for CandidateHeap {
    type V = Multiset<Candidate>;

    closed spec fn view(&self) -> Multiset<Candidate> {
        self.items@.to_multiset()
    }
}

impl CandidateHeap {
    /// Nothing goes before what is above it.
    pub closed spec fn wf(&self) -> bool {
        forall|i: int| 1 <= i < self.items@.len() ==> #[trigger] settled(self.items@, i)
    }

    proof fn lemma_top_is_first(&self, i: int)
        requires
            self.wf(),
            0 <= i < self.items@.len(),
        ensures
            !self.items@[i].before(self.items@[0]),
        decreases i,
    {
        if i > 0 {
            assert(settled(self.items@, i));
            self.lemma_top_is_first(parent_of(i));
        }
    }

    pub fn new() -> (heap: Self)
        ensures
            heap.wf(),
            heap@ == Multiset::<Candidate>::empty(),
    {
        let heap = CandidateHeap { items: Vec::new() };
        proof {
            broadcast use vstd::seq_lib::group_to_multiset_ensures;
            assert(heap@.len() == 0);
            assert(heap@ =~= Multiset::<Candidate>::empty());
        }
        heap
    }

    pub fn len(&self) -> (len: usize)
        ensures
            len == self@.len(),
    {
        proof {
            broadcast use vstd::seq_lib::group_to_multiset_ensures;
        }
        self.items.len()
    }

    pub fn clear(&mut self)
        ensures
            final(self).wf(),
            final(self)@ == Multiset::<Candidate>::empty(),
    {
        self.items.clear();
        proof {
            broadcast use vstd::seq_lib::group_to_multiset_ensures;
            assert(self@.len() == 0);
            assert(self@ =~= Multiset::<Candidate>::empty());
        }
    }

    pub fn push(&mut self, candidate: Candidate)
        requires
            old(self).wf(),
        ensures
            final(self).wf(),
            final(self)@ == old(self)@.insert(candidate),
    {
        self.items.push(candidate);
        proof {
            vstd::seq_lib::to_multiset_build(old(self).items@, candidate);
            assert forall|j: int| 1 <= j < self.items@.len() - 1 implies #[trigger] settled(
                self.items@,
                j,
            ) by {
                assert(settled(old(self).items@, j));
            }
        }
        let mut i: usize = self.items.len() - 1;
        while i > 0 && self.items[i].goes_before(&self.items[(i - 1) / 2])
            invariant
                i < self.items@.len(),
                self@ == old(self)@.insert(candidate),
                forall|j: int|
                    1 <= j < self.items@.len() && j != i ==> #[trigger] settled(self.items@, j),
                forall|j: int|
                    1 <= j < self.items@.len() && i > 0 && parent_of(j) == i ==> !(
                    #[trigger] self.items@[j]).before(self.items@[parent_of(i as int)]),
            decreases i,
        {
            let above: usize = (i - 1) / 2;
            let ghost before = self.items@;
            let lower = self.items[i];
            let upper = self.items[above];
            self.items.set(i, upper);
            self.items.set(above, lower);
            proof {
                lemma_swap_keeps_items(before, i as int, above as int);
                assert(self.items@ =~= before.update(i as int, before[above as int]).update(
                    above as int,
                    before[i as int],
                ));
                assert forall|j: int|
                    1 <= j < self.items@.len() && j != above implies #[trigger] settled(
                    self.items@,
                    j,
                ) by {
                    if j == i {
                    } else if parent_of(j) == i {
                        assert(!before[j].before(before[above as int]));
                    } else if parent_of(j) == above {
                        assert(settled(before, j));
                    } else {
                        assert(settled(before, j));
                    }
                }
                assert forall|j: int|
                    1 <= j < self.items@.len() && above > 0 && parent_of(j) == above implies !(
                #[trigger] self.items@[j]).before(self.items@[parent_of(above as int)]) by {
                    assert(settled(before, above as int));
                    if j != i {
                        assert(settled(before, j));
                    }
                }
            }
            i = above;
        }
        proof {
            if i > 0 {
                assert(settled(self.items@, i as int));
            }
        }
    }

    /// Take the candidate that goes first.
    pub fn pop(&mut self) -> (first: Option<Candidate>)
        requires
            old(self).wf(),
        ensures
            final(self).wf(),
            match first {
                Some(first) => {
                    &&& old(self)@.count(first) > 0
                    &&& final(self)@ == old(self)@.remove(first)
                    &&& forall|other: Candidate| #[trigger]
                        old(self)@.count(other) > 0 ==> !other.before(first)
                },
                None => old(self)@.len() == 0 && *final(self) == *old(self),
            },
    {
        proof {
            broadcast use vstd::seq_lib::group_to_multiset_ensures;
        }
        let len: usize = self.items.len();
        if len == 0 {
            return None;
        }
        let first = self.items[0];
        let last = self.items[len - 1];
        proof {
            vstd::seq_lib::to_multiset_contains(self.items@, first);
            assert(self.items@.contains(first));
            assert forall|other: Candidate| #[trigger] old(self)@.count(other) > 0 implies
                !other.before(first) by {
                vstd::seq_lib::to_multiset_contains(self.items@, other);
                let i = choose|i: int| 0 <= i < self.items@.len() && self.items@[i] == other;
                self.lemma_top_is_first(i);
            }
            lemma_swap_keeps_items(self.items@, 0, len - 1);
            let swapped = self.items@.update(0, last).update(len - 1, first);
            vstd::seq_lib::to_multiset_remove(swapped, len - 1);
            assert(swapped.remove(len - 1) =~= self.items@.update(0, last).drop_last());
        }
        self.items.swap_remove(0);
        assert(self.items@ =~= old(self).items@.update(0, last).drop_last());
        let len: usize = len - 1;
        let mut i: usize = 0;
        proof {
            assert forall|j: int|
                1 <= j < self.items@.len() && parent_of(j) != 0 implies #[trigger] settled(
                self.items@,
                j,
            ) by {
                assert(settled(old(self).items@, j));
            }
        }
        loop
            invariant
                len == self.items@.len(),
                i < len || len == 0,
                i == 0 || i < len,
                self@ == old(self)@.remove(first),
                forall|j: int|
                    1 <= j < self.items@.len() && parent_of(j) != i ==> #[trigger] settled(
                        self.items@,
                        j,
                    ),
                forall|j: int|
                    1 <= j < self.items@.len() && i > 0 && parent_of(j) == i ==> !(
                    #[trigger] self.items@[j]).before(self.items@[parent_of(i as int)]),
            ensures
                self.wf(),
                self@ == old(self)@.remove(first),
            decreases len - i,
        {
            if i >= len || i >= len - 1 || i > (len - 2) / 2 {
                assert forall|j: int| 1 <= j < self.items@.len() implies #[trigger] settled(
                    self.items@,
                    j,
                ) by {
                    assert(parent_of(j) != i);
                }
                break;
            }
            let left: usize = 2 * i + 1;
            let least: usize = if left + 1 < len && self.items[left + 1].goes_before(
                &self.items[left],
            ) {
                left + 1
            } else {
                left
            };
            if !self.items[least].goes_before(&self.items[i]) {
                assert forall|j: int| 1 <= j < self.items@.len() implies #[trigger] settled(
                    self.items@,
                    j,
                ) by {
                    if parent_of(j) == i {
                        assert(j == left || j == left + 1);
                    }
                }
                break;
            }
            let ghost before = self.items@;
            let upper = self.items[i];
            let lower = self.items[least];
            self.items.set(i, lower);
            self.items.set(least, upper);
            proof {
                lemma_swap_keeps_items(before, i as int, least as int);
                assert(self.items@ =~= before.update(i as int, before[least as int]).update(
                    least as int,
                    before[i as int],
                ));
                assert forall|j: int|
                    1 <= j < self.items@.len() && parent_of(j) != least implies #[trigger] settled(
                    self.items@,
                    j,
                ) by {
                    if parent_of(j) == i {
                        assert(j == left || j == left + 1);
                    } else if j == i {
                        assert(parent_of(least as int) == i);
                        assert(!before[least as int].before(before[parent_of(i as int)]));
                    } else {
                        assert(settled(before, j));
                    }
                }
                assert forall|j: int|
                    1 <= j < self.items@.len() && parent_of(j) == least implies !(
                #[trigger] self.items@[j]).before(self.items@[parent_of(least as int)]) by {
                    assert(settled(before, j));
                }
            }
            i = least;
        }
        Some(first)
    }
}

} // verus!
