//! Fixed slots, handed out last-freed first. Uniform slots make allocation a
//! `Vec::pop` and freeing a `Vec::push`. Both tiers keep their slots this way.

use vstd::prelude::*;

verus! {

pub struct SlotPool {
    /// Free slots, LIFO: the last-freed slot is still cache-hot.
    free: Vec<u32>,
    live: usize,
    capacity: usize,
}

impl SlotPool {
    /// How many slots there are.
    pub closed spec fn slots(&self) -> nat {
        self.capacity as nat
    }

    /// The free slots, next one to hand out last.
    pub closed spec fn stack(&self) -> Seq<u32> {
        self.free@
    }

    /// The slots that are handed out.
    pub open spec fn taken(&self) -> Set<u32> {
        Set::new(|slot: u32| slot < self.slots() && !self.stack().contains(slot))
    }

    pub closed spec fn wf(&self) -> bool {
        &&& self.capacity <= u32::MAX
        &&& self.live + self.free@.len() == self.capacity
        &&& self.free@.no_duplicates()
        &&& forall|i: int| 0 <= i < self.free@.len() ==> #[trigger] self.free@[i] < self.capacity
        &&& self.taken().finite()
        &&& self.taken().len() == self.live
    }

    pub fn new(capacity: usize) -> (pool: Self)
        requires
            capacity <= u32::MAX,
        ensures
            pool.wf(),
            pool.slots() == capacity,
            pool.stack() == Seq::new(capacity as nat, |i: int| (capacity - 1 - i) as u32),
            pool.taken() == Set::<u32>::empty(),
    {
        // Reversed so the first allocations hand out slot 0, 1, 2, ...
        let mut free: Vec<u32> = Vec::with_capacity(capacity);
        let mut next: usize = capacity;
        while next > 0
            invariant
                next <= capacity <= u32::MAX,
                free@ == Seq::new((capacity - next) as nat, |i: int| (capacity - 1 - i) as u32),
            decreases next,
        {
            next = next - 1;
            free.push(next as u32);
            assert(free@ =~= Seq::new(
                (capacity - next) as nat,
                |i: int| (capacity - 1 - i) as u32,
            ));
        }
        let pool = SlotPool { free, live: 0, capacity };
        assert forall|slot: u32| slot < capacity implies pool.free@.contains(slot) by {
            assert(pool.free@[capacity - 1 - slot] == slot);
        }
        assert(pool.taken() =~= Set::<u32>::empty());
        pool
    }

    /// Claim a slot, or `None` when full. Never evicts: policy belongs to
    /// the layer above.
    pub fn claim(&mut self) -> (slot: Option<u32>)
        requires
            old(self).wf(),
        ensures
            final(self).wf(),
            final(self).slots() == old(self).slots(),
            match slot {
                Some(slot) => {
                    &&& old(self).stack().len() > 0
                    &&& slot == old(self).stack().last()
                    &&& final(self).stack() == old(self).stack().drop_last()
                    &&& slot < old(self).slots()
                    &&& !old(self).taken().contains(slot)
                    &&& final(self).taken() == old(self).taken().insert(slot)
                },
                None => {
                    &&& old(self).stack().len() == 0
                    &&& final(self).stack() == old(self).stack()
                    &&& final(self).taken() == old(self).taken()
                },
            },
    {
        match self.free.pop() {
            None => {
                assert(self.taken() =~= old(self).taken());
                None
            },
            Some(slot) => {
                proof {
                    let n = old(self).free@.len() - 1;
                    assert(old(self).free@[n] == slot);
                    assert(self.free@ =~= old(self).free@.drop_last());
                    assert forall|other: u32| other != slot implies (self.free@.contains(other)
                        <==> old(self).free@.contains(other)) by {
                        if old(self).free@.contains(other) {
                            let i = choose|i: int|
                                0 <= i < old(self).free@.len() && old(self).free@[i] == other;
                            assert(self.free@[i] == other);
                        }
                    }
                    assert(!self.free@.contains(slot));
                }
                self.live = self.live + 1;
                assert(self.taken() =~= old(self).taken().insert(slot));
                Some(slot)
            },
        }
    }

    pub fn free(&mut self, slot: u32)
        requires
            old(self).wf(),
            old(self).taken().contains(slot),
        ensures
            final(self).wf(),
            final(self).slots() == old(self).slots(),
            final(self).stack() == old(self).stack().push(slot),
            final(self).taken() == old(self).taken().remove(slot),
    {
        self.free.push(slot);
        proof {
            let n = old(self).free@.len() as int;
            assert(self.free@[n] == slot);
            assert forall|other: u32| other != slot implies (self.free@.contains(other)
                <==> old(self).free@.contains(other)) by {
                if old(self).free@.contains(other) {
                    let i = choose|i: int|
                        0 <= i < old(self).free@.len() && old(self).free@[i] == other;
                    assert(self.free@[i] == other);
                }
            }
            assert(self.taken() =~= old(self).taken().remove(slot));
            assert(old(self).taken().len() > 0);
        }
        self.live = self.live - 1;
    }

    pub fn capacity(&self) -> (capacity: usize)
        ensures
            capacity == self.slots(),
    {
        self.capacity
    }

    /// Slots currently handed out.
    pub fn live(&self) -> (live: usize)
        requires
            self.wf(),
        ensures
            live == self.taken().len(),
            live + self.stack().len() == self.slots(),
    {
        self.live
    }

    pub fn is_full(&self) -> (full: bool)
        ensures
            full == (self.stack().len() == 0),
    {
        self.free.is_empty()
    }

    /// Where every slot is handed out, every slot number below the capacity
    /// is taken; where one is free, some slot number is not.
    pub proof fn lemma_full_means_all_taken(&self)
        requires
            self.wf(),
        ensures
            self.stack().len() == 0 ==> forall|slot: u32|
                slot < self.slots() ==> self.taken().contains(slot),
            self.taken().finite(),
            self.taken().len() + self.stack().len() == self.slots(),
            self.slots() <= u32::MAX,
    {
    }
}

/// A new pool hands out the lowest slot first.
pub proof fn lemma_first_slot_is_zero(capacity: usize, pool: &mut SlotPool, slot: Option<u32>)
    requires
        0 < capacity <= u32::MAX,
        call_ensures(SlotPool::new, (capacity,), *old(pool)),
        call_ensures(SlotPool::claim, (pool,), slot),
    ensures
        slot == Some(0u32),
{
    assert(old(pool).stack().last() == 0);
}

/// Slots come out of a new pool in order: after one, the next higher.
pub proof fn lemma_slots_come_in_order(
    pool: &mut SlotPool,
    slot: Option<u32>,
    next: &mut SlotPool,
    after: Option<u32>,
    capacity: usize,
)
    requires
        old(pool).stack().len() <= capacity <= u32::MAX,
        forall|i: int|
            0 <= i < old(pool).stack().len() ==> #[trigger] old(pool).stack()[i] == capacity - 1
                - i,
        call_ensures(SlotPool::claim, (pool,), slot),
        *old(next) == *final(pool),
        call_ensures(SlotPool::claim, (next,), after),
    ensures
        after matches Some(after) ==> (slot matches Some(slot) && after == slot + 1),
{
    if after is Some {
        let n = old(pool).stack().len() as int;
        assert(old(pool).stack().last() == old(pool).stack()[n - 1]);
        assert(final(pool).stack().last() == old(pool).stack()[n - 2]);
    }
}

/// The slot that was freed last is handed out next.
pub proof fn lemma_last_freed_comes_first(
    pool: &mut SlotPool,
    freed: u32,
    next: &mut SlotPool,
    slot: Option<u32>,
)
    requires
        call_ensures(SlotPool::free, (pool, freed), ()),
        *old(next) == *final(pool),
        call_ensures(SlotPool::claim, (next,), slot),
    ensures
        slot == Some(freed),
        final(next).stack() == old(pool).stack(),
{
    assert(old(pool).stack().push(freed).drop_last() =~= old(pool).stack());
}

/// What is handed out was free and is so no longer; nobody else's slot is
/// touched.
pub proof fn lemma_no_slot_is_handed_out_twice(pool: &mut SlotPool, slot: u32, other: u32)
    requires
        call_ensures(SlotPool::claim, (pool,), Some(slot)),
    ensures
        !old(pool).taken().contains(slot),
        final(pool).taken().contains(slot),
        other != slot ==> (final(pool).taken().contains(other) <==> old(pool).taken().contains(
            other,
        )),
{
}

} // verus!
