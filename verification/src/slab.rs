//! Fixed-size block storage over one anonymous mapping.
//!
//! A mapping rather than a `Vec<u8>` because the address range never moves
//! and pages commit lazily. A reader that outlives the borrow of the slab
//! holds its own copy of the block, so what it sees cannot change under it:
//!
//!   **A block is written once, before it is reachable, and never again.**

use vstd::prelude::*;

use crate::block::BlockHash;
use crate::pool::SlotPool;

verus! {

/// An anonymous mapping of memory.
#[verifier::external_type_specification]
#[verifier::external_body]
pub struct ExMmapMut(memmap2::MmapMut);

/// Why the operating system refused.
#[verifier::external_type_specification]
#[verifier::external_body]
pub struct ExIoError(std::io::Error);

/// The bytes that a mapping holds.
pub uninterp spec fn mapped_bytes(map: memmap2::MmapMut) -> Seq<u8>;

/// Calls `memmap2::MmapMut::map_anon`. Claims that a mapping that was granted
/// has the length asked for and reads as zeros, which is how the pages of a
/// private anonymous mapping start, and that none is granted that is longer
/// than `isize::MAX`; whether any other is granted is up to the operating
/// system.
#[verifier::external_body]
fn map_anon(length: usize) -> (map: Result<memmap2::MmapMut, std::io::Error>)
    ensures
        map matches Ok(map) ==> mapped_bytes(map) == Seq::new(length as nat, |i: int| 0u8),
        length > isize::MAX ==> map is Err,
{
    memmap2::MmapMut::map_anon(length)
}

/// `map` is what can be answered to asking for a mapping of `length` bytes.
pub closed spec fn is_answer(
    length: int,
    map: Result<memmap2::MmapMut, std::io::Error>,
) -> bool {
    0 <= length <= usize::MAX && call_ensures(map_anon, (length as usize,), map)
}

/// Borrows a range of a mapping through `MmapMut`'s `Deref`. Claims that the
/// slice is that range of what the mapping holds.
#[verifier::external_body]
fn map_range(map: &memmap2::MmapMut, start: usize, end: usize) -> (range: &[u8])
    requires
        start <= end <= mapped_bytes(*map).len(),
    ensures
        range@ == mapped_bytes(*map).subrange(start as int, end as int),
{
    &map[start..end]
}

/// Borrows a range of a mapping for writing through `MmapMut`'s `DerefMut`.
/// Claims that the slice starts as that range, and that what is written to it
/// is what the range holds afterwards, the rest being as it was.
#[verifier::external_body]
fn map_range_mut(map: &mut memmap2::MmapMut, start: usize, end: usize) -> (range: &mut [u8])
    requires
        start <= end <= mapped_bytes(*old(map)).len(),
    ensures
        range@ == mapped_bytes(*old(map)).subrange(start as int, end as int),
        final(range)@.len() == range@.len(),
        mapped_bytes(*final(map)) == mapped_bytes(*old(map)).subrange(0, start as int)
            + final(range)@ + mapped_bytes(*old(map)).subrange(
            end as int,
            mapped_bytes(*old(map)).len() as int,
        ),
{
    &mut map[start..end]
}

/// Index of a block-sized slot within the slab.
#[derive(Clone, Copy, Debug, PartialEq, Eq, PartialOrd, Ord, Hash, Structural)]
pub struct SlotId {
    pub number: u32,
}

impl SlotId {
    pub fn index(self) -> (index: usize)
        ensures
            index == self.number,
    {
        self.number as usize
    }

    /// The slot of that number, for callers that exercise an index alone.
    pub fn for_tests(index: u32) -> (slot: Self)
        ensures
            slot.number == index,
    {
        SlotId { number: index }
    }
}

/// A block held open for reading: its name, where it lay when it was pinned,
/// and its bytes.
pub struct PinnedBlock {
    hash: BlockHash,
    slot: SlotId,
    data: Vec<u8>,
}

impl PinnedBlock {
    /// The name of the block.
    pub closed spec fn name(&self) -> u128 {
        self.hash@
    }

    /// The slot it was read from.
    pub closed spec fn place(&self) -> u32 {
        self.slot.number
    }

    /// The bytes it holds.
    pub closed spec fn payload(&self) -> Seq<u8> {
        self.data@
    }

    pub fn hash(&self) -> (hash: BlockHash)
        ensures
            hash@ == self.name(),
    {
        self.hash
    }

    pub fn bytes(&self) -> (bytes: &[u8])
        ensures
            bytes@ == self.payload(),
    {
        self.data.as_slice()
    }
}

/// A slot reserved but not yet published in the index, so nothing can read
/// it, with the bytes that will be put there.
pub struct BlockWriter {
    slot: SlotId,
    data: Vec<u8>,
}

impl BlockWriter {
    /// The reserved slot.
    pub closed spec fn place(&self) -> u32 {
        self.slot.number
    }

    /// What has been staged for it.
    pub closed spec fn staged(&self) -> Seq<u8> {
        self.data@
    }

    pub fn slot(&self) -> (slot: SlotId)
        ensures
            slot.number == self.place(),
    {
        self.slot
    }

    pub fn bytes(&self) -> (bytes: &[u8])
        ensures
            bytes@ == self.staged(),
    {
        self.data.as_slice()
    }

    pub fn bytes_mut(&mut self) -> (bytes: &mut [u8])
        ensures
            bytes@ == old(self).staged(),
            final(self).staged() == final(bytes)@,
            final(self).place() == old(self).place(),
    {
        self.data.as_mut_slice()
    }
}

impl BlockWriter {
    /// Stage a whole block.
    pub fn stage(&mut self, data: &[u8])
        requires
            data@.len() == old(self).staged().len(),
        ensures
            final(self).staged() == data@,
            final(self).place() == old(self).place(),
    {
        copy_block(self.bytes_mut(), data);
    }
}

/// Why a slab could not be made.
#[derive(Debug)]
pub enum SlabError {
    /// The operating system would not map that much memory.
    MapFailed(std::io::Error),
}

pub struct Slab {
    map: memmap2::MmapMut,
    block_bytes: usize,
    pool: SlotPool,
}

/// Slots lie one after another, and the last one ends with the mapping.
proof fn lemma_slots_apart(a: int, b: int, width: int)
    requires
        0 <= a < b,
        0 <= width,
    ensures
        0 <= a * width,
        a * width + width <= b * width,
        b * width == width * b,
{
    assert(a * width + width <= b * width) by (nonlinear_arith)
        requires
            0 <= a < b,
            0 <= width,
    ;
    assert(0 <= a * width) by (nonlinear_arith)
        requires
            0 <= a,
            0 <= width,
    ;
    assert(b * width == width * b) by (nonlinear_arith);
}

impl Slab {
    /// Bytes in one slot.
    pub closed spec fn width(&self) -> nat {
        self.block_bytes as nat
    }

    /// How many slots there are.
    pub closed spec fn slots(&self) -> nat {
        self.pool.slots()
    }

    /// The free slots, next one to hand out last.
    pub closed spec fn stack(&self) -> Seq<u32> {
        self.pool.stack()
    }

    /// The slots that are handed out.
    pub closed spec fn taken(&self) -> Set<u32> {
        self.pool.taken()
    }

    /// The mapping that the slots lie in.
    pub closed spec fn mapping(&self) -> memmap2::MmapMut {
        self.map
    }

    /// What a slot holds.
    pub closed spec fn bytes_at(&self, slot: u32) -> Seq<u8> {
        mapped_bytes(self.map).subrange(slot * self.block_bytes, slot * self.block_bytes
            + self.block_bytes)
    }

    pub closed spec fn wf(&self) -> bool {
        &&& self.pool.wf()
        &&& self.block_bytes > 0
        &&& mapped_bytes(self.map).len() == self.block_bytes * self.pool.slots()
        &&& self.block_bytes * self.pool.slots() <= usize::MAX
    }

    /// What holds of every slab: where slots lie, and how wide they are.
    pub proof fn lemma_shape(&self)
        requires
            self.wf(),
        ensures
            self.width() > 0,
            self.slots() <= u32::MAX,
            self.width() * self.slots() <= usize::MAX,
            self.taken().finite(),
            self.taken().len() + self.stack().len() == self.slots(),
            forall|slot: u32| #[trigger] self.taken().contains(slot) ==> slot < self.slots(),
            forall|slot: u32|
                slot < self.slots() ==> (#[trigger] self.bytes_at(slot)).len() == self.width(),
    {
        self.pool.lemma_full_means_all_taken();
        assert forall|slot: u32| slot < self.slots() implies (#[trigger] self.bytes_at(slot)).len()
            == self.width() by {
            lemma_slots_apart(slot as int, self.slots() as int, self.block_bytes as int);
        }
    }

    /// A slab of `capacity` slots, all free and holding zeros, in memory that
    /// is asked of the operating system. Where that refuses, its error.
    pub fn new(block_bytes: usize, capacity: usize) -> (slab: Result<Self, SlabError>)
        requires
            block_bytes > 0,
            0 < capacity <= u32::MAX,
            block_bytes * capacity <= usize::MAX,
        ensures
            block_bytes * capacity > isize::MAX ==> slab is Err,
            match slab {
                Ok(slab) => {
                    &&& is_answer(
                        block_bytes * capacity,
                        Ok::<memmap2::MmapMut, std::io::Error>(slab.mapping()),
                    )
                    &&& slab.wf()
                    &&& slab.width() == block_bytes
                    &&& slab.slots() == capacity
                    &&& slab.stack() == Seq::new(
                        capacity as nat,
                        |i: int| (capacity - 1 - i) as u32,
                    )
                    &&& slab.taken() == Set::<u32>::empty()
                    &&& forall|slot: u32|
                        slot < capacity ==> #[trigger] slab.bytes_at(slot) == Seq::new(
                            block_bytes as nat,
                            |i: int| 0u8,
                        )
                },
                Err(SlabError::MapFailed(error)) => is_answer(
                    block_bytes * capacity,
                    Err::<memmap2::MmapMut, std::io::Error>(error),
                ),
            },
    {
        let map = map_anon(block_bytes * capacity);
        let slab = Self::from_map(map, block_bytes, capacity);
        proof {
            if slab is Ok {
                let made = slab->Ok_0;
                assert forall|slot: u32| slot < capacity implies #[trigger] made.bytes_at(slot)
                    == Seq::new(block_bytes as nat, |i: int| 0u8) by {
                    lemma_slots_apart(slot as int, capacity as int, block_bytes as int);
                    assert(made.bytes_at(slot) =~= Seq::new(block_bytes as nat, |i: int| 0u8));
                }
            }
        }
        slab
    }

    /// The slab in a mapping that was granted, every slot free, or the error
    /// with which it was refused.
    pub fn from_map(
        map: Result<memmap2::MmapMut, std::io::Error>,
        block_bytes: usize,
        capacity: usize,
    ) -> (slab: Result<Self, SlabError>)
        requires
            block_bytes > 0,
            0 < capacity <= u32::MAX,
            block_bytes * capacity <= usize::MAX,
            map matches Ok(map) ==> mapped_bytes(map).len() == block_bytes * capacity,
        ensures
            match map {
                Ok(map) => slab matches Ok(slab) && {
                    &&& slab.mapping() == map
                    &&& slab.wf()
                    &&& slab.width() == block_bytes
                    &&& slab.slots() == capacity
                    &&& slab.stack() == Seq::new(
                        capacity as nat,
                        |i: int| (capacity - 1 - i) as u32,
                    )
                    &&& slab.taken() == Set::<u32>::empty()
                    &&& forall|slot: u32|
                        slot < capacity ==> #[trigger] slab.bytes_at(slot) == mapped_bytes(
                            map,
                        ).subrange(slot * block_bytes, slot * block_bytes + block_bytes)
                },
                Err(error) => slab == Err::<Slab, SlabError>(SlabError::MapFailed(error)),
            },
    {
        match map {
            Err(error) => Err(SlabError::MapFailed(error)),
            Ok(map) => Ok(Slab { map, block_bytes, pool: SlotPool::new(capacity) }),
        }
    }

    /// Claim a slot, or `None` when full. Never evicts: policy belongs to
    /// the layer above.
    pub fn claim(&mut self) -> (slot: Option<SlotId>)
        requires
            old(self).wf(),
        ensures
            final(self).wf(),
            final(self).width() == old(self).width(),
            final(self).slots() == old(self).slots(),
            forall|s: u32| #[trigger] final(self).bytes_at(s) == old(self).bytes_at(s),
            match slot {
                Some(slot) => {
                    &&& old(self).stack().len() > 0
                    &&& slot.number == old(self).stack().last()
                    &&& final(self).stack() == old(self).stack().drop_last()
                    &&& slot.number < old(self).slots()
                    &&& !old(self).taken().contains(slot.number)
                    &&& final(self).taken() == old(self).taken().insert(slot.number)
                },
                None => {
                    &&& old(self).stack().len() == 0
                    &&& final(self).stack() == old(self).stack()
                    &&& final(self).taken() == old(self).taken()
                },
            },
    {
        match self.pool.claim() {
            Some(number) => Some(SlotId { number }),
            None => None,
        }
    }

    pub fn free(&mut self, slot: SlotId)
        requires
            old(self).wf(),
            old(self).taken().contains(slot.number),
        ensures
            final(self).wf(),
            final(self).width() == old(self).width(),
            final(self).slots() == old(self).slots(),
            final(self).stack() == old(self).stack().push(slot.number),
            final(self).taken() == old(self).taken().remove(slot.number),
            forall|s: u32| #[trigger] final(self).bytes_at(s) == old(self).bytes_at(s),
    {
        self.pool.free(slot.number);
    }

    pub fn block(&self, slot: SlotId) -> (bytes: &[u8])
        requires
            self.wf(),
            slot.number < self.slots(),
        ensures
            bytes@ == self.bytes_at(slot.number),
    {
        proof {
            lemma_slots_apart(
                slot.number as int,
                self.slots() as int,
                self.block_bytes as int,
            );
        }
        let start: usize = slot.index() * self.block_bytes;
        map_range(&self.map, start, start + self.block_bytes)
    }

    pub fn block_mut(&mut self, slot: SlotId) -> (bytes: &mut [u8])
        requires
            old(self).wf(),
            slot.number < old(self).slots(),
        ensures
            bytes@ == old(self).bytes_at(slot.number),
            final(bytes)@.len() == bytes@.len(),
            final(self).wf(),
            final(self).width() == old(self).width(),
            final(self).slots() == old(self).slots(),
            final(self).stack() == old(self).stack(),
            final(self).taken() == old(self).taken(),
            final(self).bytes_at(slot.number) == final(bytes)@,
            forall|s: u32|
                s != slot.number && s < old(self).slots() ==> #[trigger] final(self).bytes_at(s)
                    == old(self).bytes_at(s),
    {
        proof {
            lemma_slots_apart(
                slot.number as int,
                self.slots() as int,
                self.block_bytes as int,
            );
        }
        let start: usize = slot.index() * self.block_bytes;
        let ghost before = *self;
        let bytes = map_range_mut(&mut self.map, start, start + self.block_bytes);
        proof {
            assert forall|s: u32, after: Slab|
                s != slot.number && s < before.slots() && after.block_bytes == before.block_bytes
                    && mapped_bytes(after.map) == mapped_bytes(before.map).subrange(0, start as int)
                    + final(bytes)@ + mapped_bytes(before.map).subrange(
                    start + before.block_bytes,
                    mapped_bytes(before.map).len() as int,
                ) && final(bytes)@.len() == before.block_bytes implies #[trigger] after.bytes_at(s)
                == before.bytes_at(s) by {
                lemma_slots_apart(s as int, before.slots() as int, before.block_bytes as int);
                if s < slot.number {
                    lemma_slots_apart(s as int, slot.number as int, before.block_bytes as int);
                } else {
                    lemma_slots_apart(slot.number as int, s as int, before.block_bytes as int);
                }
                assert(after.bytes_at(s) =~= before.bytes_at(s));
            }
        }
        bytes
    }

    /// Put `data` in a slot.
    pub fn write(&mut self, slot: SlotId, data: &[u8])
        requires
            old(self).wf(),
            slot.number < old(self).slots(),
            data@.len() == old(self).width(),
        ensures
            final(self).wf(),
            final(self).width() == old(self).width(),
            final(self).slots() == old(self).slots(),
            final(self).stack() == old(self).stack(),
            final(self).taken() == old(self).taken(),
            final(self).bytes_at(slot.number) == data@,
            forall|s: u32|
                s != slot.number && s < old(self).slots() ==> #[trigger] final(self).bytes_at(s)
                    == old(self).bytes_at(s),
    {
        proof {
            self.lemma_shape();
        }
        let into = self.block_mut(slot);
        copy_block(into, data);
    }

    /// Hand out a reserved slot for filling outside the lock. The caller must
    /// not publish `slot` in the index until the writer is done with it.
    pub fn writer(&self, slot: SlotId) -> (writer: BlockWriter)
        requires
            self.wf(),
            slot.number < self.slots(),
        ensures
            writer.place() == slot.number,
            writer.staged() == self.bytes_at(slot.number),
    {
        BlockWriter { slot, data: vstd::slice::slice_to_vec(self.block(slot)) }
    }

    /// Hold a slot open for reading past the lifetime of a `&self` borrow.
    /// The caller must have pinned `hash` in the index first.
    pub fn pinned(&self, hash: BlockHash, slot: SlotId) -> (pinned: PinnedBlock)
        requires
            self.wf(),
            slot.number < self.slots(),
        ensures
            pinned.name() == hash@,
            pinned.place() == slot.number,
            pinned.payload() == self.bytes_at(slot.number),
    {
        PinnedBlock { hash, slot, data: vstd::slice::slice_to_vec(self.block(slot)) }
    }

    pub fn block_bytes(&self) -> (bytes: usize)
        ensures
            bytes == self.width(),
    {
        self.block_bytes
    }

    pub fn capacity(&self) -> (capacity: usize)
        ensures
            capacity == self.slots(),
    {
        self.pool.capacity()
    }

    /// Slots currently handed out.
    pub fn live(&self) -> (live: usize)
        requires
            self.wf(),
        ensures
            live == self.taken().len(),
            live + self.stack().len() == self.slots(),
    {
        self.pool.live()
    }

    pub fn is_full(&self) -> (full: bool)
        ensures
            full == (self.stack().len() == 0),
    {
        self.pool.is_full()
    }

    /// Reserved address space, not resident memory.
    pub fn reserved_bytes(&self) -> (bytes: usize)
        requires
            self.wf(),
        ensures
            bytes == self.width() * self.slots(),
    {
        self.block_bytes * self.pool.capacity()
    }
}

/// Copy a block over another of the same length.
fn copy_block(into: &mut [u8], data: &[u8])
    requires
        old(into)@.len() == data@.len(),
    ensures
        final(into)@ == data@,
{
    let mut i: usize = 0;
    while i < data.len()
        invariant
            i <= data@.len(),
            into@.len() == data@.len(),
            forall|k: int| 0 <= k < i ==> into@[k] == data@[k],
        decreases data.len() - i,
    {
        into[i] = data[i];
        i = i + 1;
    }
    assert(into@ =~= data@);
}

} // verus!
