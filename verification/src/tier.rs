//! The disk tier: the same fixed-slot discipline as the RAM slab, backed by a
//! file. Eviction from RAM becomes demotion here, so a block that leaves
//! memory costs a read on its next hit rather than a full prefill.
//!
//! This keeps the accounts: which slots are taken, where each one lies in the
//! file, what has been moved. Whoever holds the file reads and writes it.

use vstd::prelude::*;

use crate::pool::SlotPool;

verus! {

/// Index of a block-sized slot within the tier's file.
#[derive(Clone, Copy, Debug, PartialEq, Eq, PartialOrd, Ord, Hash, Structural)]
pub struct DiskSlot {
    pub number: u32,
}

impl DiskSlot {
    pub fn index(self) -> (index: usize)
        ensures
            index == self.number,
    {
        self.number as usize
    }
}

#[derive(Clone, Copy, Debug)]
pub struct DiskStats {
    pub reads: u64,
    pub writes: u64,
    pub bytes_read: u64,
    pub bytes_written: u64,
}

impl Default for DiskStats {
    fn default() -> (stats: Self)
        ensures
            stats == (DiskStats { reads: 0, writes: 0, bytes_read: 0, bytes_written: 0 }),
    {
        DiskStats { reads: 0, writes: 0, bytes_read: 0, bytes_written: 0 }
    }
}

/// A counter raised by `amount`, or at its limit.
pub open spec fn raised(counter: u64, amount: int) -> u64 {
    if counter + amount > u64::MAX {
        u64::MAX
    } else {
        (counter + amount) as u64
    }
}

pub struct DiskTier {
    pool: SlotPool,
    block_bytes: usize,
    stats: DiskStats,
}

impl DiskTier {
    /// Bytes in one slot.
    pub closed spec fn width(&self) -> nat {
        self.block_bytes as nat
    }

    /// How many slots there are.
    pub closed spec fn slots(&self) -> nat {
        self.pool.slots()
    }

    /// The free slots, next one to hand out last.
    pub closed spec fn stack(&self) -> Seq<u32> {
        self.pool.stack()
    }

    /// The slots that are handed out.
    pub closed spec fn taken(&self) -> Set<u32> {
        self.pool.taken()
    }

    /// What has been read and written so far.
    pub closed spec fn moved(&self) -> DiskStats {
        self.stats
    }

    pub closed spec fn wf(&self) -> bool {
        &&& self.pool.wf()
        &&& self.block_bytes > 0
        &&& self.block_bytes * self.pool.slots() <= u64::MAX
    }

    /// What holds of every tier: how many slots it has, and which are taken.
    pub proof fn lemma_shape(&self)
        requires
            self.wf(),
        ensures
            self.width() > 0,
            self.slots() <= u32::MAX,
            self.taken().finite(),
            self.taken().len() + self.stack().len() == self.slots(),
            forall|slot: u32| #[trigger] self.taken().contains(slot) ==> slot < self.slots(),
    {
        self.pool.lemma_full_means_all_taken();
    }

    /// A tier of `capacity` blocks, all free.
    pub fn new(block_bytes: usize, capacity: usize) -> (tier: Self)
        requires
            block_bytes > 0,
            0 < capacity <= u32::MAX,
            block_bytes * capacity <= u64::MAX,
        ensures
            tier.wf(),
            tier.width() == block_bytes,
            tier.slots() == capacity,
            tier.stack() == Seq::new(capacity as nat, |i: int| (capacity - 1 - i) as u32),
            tier.taken() == Set::<u32>::empty(),
            tier.moved() == (DiskStats { reads: 0, writes: 0, bytes_read: 0, bytes_written: 0 }),
    {
        DiskTier { pool: SlotPool::new(capacity), block_bytes, stats: DiskStats::default() }
    }

    /// Claim a slot, or `None` when full.
    pub fn claim(&mut self) -> (slot: Option<DiskSlot>)
        requires
            old(self).wf(),
        ensures
            final(self).wf(),
            final(self).width() == old(self).width(),
            final(self).slots() == old(self).slots(),
            final(self).moved() == old(self).moved(),
            match slot {
                Some(slot) => {
                    &&& old(self).stack().len() > 0
                    &&& slot.number == old(self).stack().last()
                    &&& final(self).stack() == old(self).stack().drop_last()
                    &&& slot.number < old(self).slots()
                    &&& !old(self).taken().contains(slot.number)
                    &&& final(self).taken() == old(self).taken().insert(slot.number)
                },
                None => {
                    &&& old(self).stack().len() == 0
                    &&& final(self).stack() == old(self).stack()
                    &&& final(self).taken() == old(self).taken()
                },
            },
    {
        match self.pool.claim() {
            Some(number) => Some(DiskSlot { number }),
            None => None,
        }
    }

    pub fn free(&mut self, slot: DiskSlot)
        requires
            old(self).wf(),
            old(self).taken().contains(slot.number),
        ensures
            final(self).wf(),
            final(self).width() == old(self).width(),
            final(self).slots() == old(self).slots(),
            final(self).moved() == old(self).moved(),
            final(self).stack() == old(self).stack().push(slot.number),
            final(self).taken() == old(self).taken().remove(slot.number),
    {
        self.pool.free(slot.number);
    }

    /// Where a slot starts in the file.
    pub fn offset(&self, slot: DiskSlot) -> (offset: u64)
        requires
            self.wf(),
            slot.number < self.slots(),
        ensures
            offset == slot.number * self.width(),
    {
        assert(slot.number * self.block_bytes <= self.block_bytes * self.pool.slots())
            by (nonlinear_arith)
            requires
                slot.number <= self.pool.slots(),
                0 <= self.block_bytes,
        ;
        slot.number as u64 * self.block_bytes as u64
    }

    /// Record blocks read back, and their bytes.
    pub fn note_reads(&mut self, reads: u64, bytes: u64)
        requires
            old(self).wf(),
        ensures
            final(self).wf(),
            final(self).width() == old(self).width(),
            final(self).slots() == old(self).slots(),
            final(self).stack() == old(self).stack(),
            final(self).taken() == old(self).taken(),
            final(self).moved() == (DiskStats {
                reads: raised(old(self).moved().reads, reads as int),
                bytes_read: raised(old(self).moved().bytes_read, bytes as int),
                ..old(self).moved()
            }),
    {
        self.stats.reads = self.stats.reads.saturating_add(reads);
        self.stats.bytes_read = self.stats.bytes_read.saturating_add(bytes);
    }

    /// Record blocks written out, and their bytes.
    pub fn note_writes(&mut self, writes: u64, bytes: u64)
        requires
            old(self).wf(),
        ensures
            final(self).wf(),
            final(self).width() == old(self).width(),
            final(self).slots() == old(self).slots(),
            final(self).stack() == old(self).stack(),
            final(self).taken() == old(self).taken(),
            final(self).moved() == (DiskStats {
                writes: raised(old(self).moved().writes, writes as int),
                bytes_written: raised(old(self).moved().bytes_written, bytes as int),
                ..old(self).moved()
            }),
    {
        self.stats.writes = self.stats.writes.saturating_add(writes);
        self.stats.bytes_written = self.stats.bytes_written.saturating_add(bytes);
    }

    pub fn block_bytes(&self) -> (bytes: usize)
        ensures
            bytes == self.width(),
    {
        self.block_bytes
    }

    pub fn capacity(&self) -> (capacity: usize)
        ensures
            capacity == self.slots(),
    {
        self.pool.capacity()
    }

    /// Slots currently handed out.
    pub fn live(&self) -> (live: usize)
        requires
            self.wf(),
        ensures
            live == self.taken().len(),
            live + self.stack().len() == self.slots(),
    {
        self.pool.live()
    }

    pub fn is_full(&self) -> (full: bool)
        ensures
            full == (self.stack().len() == 0),
    {
        self.pool.is_full()
    }

    pub fn stats(&self) -> (stats: DiskStats)
        ensures
            stats == self.moved(),
    {
        self.stats
    }
}

/// Counters add up until they can go no further, and never go back.
pub proof fn lemma_counters_add_up(counter: u64, a: nat, b: nat)
    ensures
        counter + a <= u64::MAX ==> raised(counter, a as int) == counter + a,
        counter + a > u64::MAX ==> raised(counter, a as int) == u64::MAX,
        raised(raised(counter, a as int), b as int) == raised(counter, (a + b) as int),
        raised(counter, a as int) >= counter,
{
}

/// The slots of a tier lie one behind the other in the file, and none reaches
/// into the next.
pub proof fn lemma_slots_lie_apart(tier: &DiskTier, a: DiskSlot, b: DiskSlot, at: u64, next: u64)
    requires
        call_ensures(DiskTier::offset, (tier, a), at),
        call_ensures(DiskTier::offset, (tier, b), next),
        a.number < b.number,
    ensures
        at + tier.width() <= next,
        a.number == 0 ==> at == 0,
        b.number == a.number + 1 ==> next == at + tier.width(),
{
    let width = tier.width() as int;
    assert(a.number * width + width <= b.number * width) by (nonlinear_arith)
        requires
            a.number + 1 <= b.number,
            width >= 0,
    ;
    if b.number == a.number + 1 {
        assert((a.number + 1) * width == a.number * width + width) by (nonlinear_arith);
    }
    assert(0 * width == 0);
}

} // verus!
