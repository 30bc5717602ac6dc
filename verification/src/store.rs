//! Name a sequence, find the longest resident prefix, admit what was
//! missing. The whole cache minus the network and the file behind the disk
//! tier.
//!
//! The store never touches the disk itself. Where bytes have to be written or
//! read before it can go on, it hands out what is to be done and is told how
//! it went.

use vstd::multiset::Multiset;
use vstd::prelude::*;

use crate::block::{BlockHash, BlockLayout, PrefixHasher, TokenId};
use crate::evict::{Costs, GreedyDual, Wanted};
use crate::heap::Candidate;
use crate::index::{Entry, Index, Place};
use crate::slab::{BlockWriter, PinnedBlock, Slab, SlabError, SlotId};
use crate::tier::{DiskSlot, DiskStats, DiskTier};

pub mod effects;
pub mod laws;

verus! {

#[derive(Clone, Copy, Debug)]
pub struct Stats {
    pub lookups: u64,
    /// Blocks asked about across all lookups.
    pub queried_blocks: u64,
    /// Blocks that were resident when asked about.
    pub hit_blocks: u64,
    pub inserted_blocks: u64,
    /// Admits that found the block already present: each one is a prefill
    /// some other request had already paid for.
    pub deduped_blocks: u64,
    /// Admits refused: the slab was full and nothing could be displaced.
    pub rejected_blocks: u64,
    /// Blocks removed from the cache entirely.
    pub evicted_blocks: u64,
    /// Blocks pushed from RAM to disk rather than dropped.
    pub demoted_blocks: u64,
    /// Demotions that had to write to disk with the store lock held. The
    /// number writeback exists to drive to zero.
    pub blocking_demotions: u64,
    /// Blocks copied to disk ahead of time by the writeback loop.
    pub written_back: u64,
    /// Blocks read back from disk on a hit.
    pub promoted_blocks: u64,
    pub bytes_admitted: u64,
}

impl Default for Stats {
    fn default() -> (stats: Self)
        ensures
            stats == zero_stats(),
    {
        Stats {
            lookups: 0,
            queried_blocks: 0,
            hit_blocks: 0,
            inserted_blocks: 0,
            deduped_blocks: 0,
            rejected_blocks: 0,
            evicted_blocks: 0,
            demoted_blocks: 0,
            blocking_demotions: 0,
            written_back: 0,
            promoted_blocks: 0,
            bytes_admitted: 0,
        }
    }
}

/// Nothing has happened yet.
pub open spec fn zero_stats() -> Stats {
    Stats {
        lookups: 0,
        queried_blocks: 0,
        hit_blocks: 0,
        inserted_blocks: 0,
        deduped_blocks: 0,
        rejected_blocks: 0,
        evicted_blocks: 0,
        demoted_blocks: 0,
        blocking_demotions: 0,
        written_back: 0,
        promoted_blocks: 0,
        bytes_admitted: 0,
    }
}

/// Who owns which slot, which slots are held in reserve, what the disk holds,
/// which blocks have left the candidates while they are being moved or until
/// they are next used, and which have because they could not be demoted.
pub struct Ledger {
    pub ram_owner: Map<u32, u128>,
    pub ram_held: Set<u32>,
    pub disk_owner: Map<u32, u128>,
    pub disk_held: Set<u32>,
    pub image: Map<u32, Seq<u8>>,
    pub loose: Set<u128>,
    pub parked: Set<u128>,
}

/// Result of naming a sequence and probing for it.
#[derive(Clone, Debug)]
pub struct Lookup {
    /// Names of every full block in the sequence, in order.
    pub hashes: Vec<BlockHash>,
    /// How many leading blocks were resident.
    pub matched: usize,
    pub tokens_per_block: usize,
}

impl Lookup {
    /// The matched part is part of the sequence, and its tokens can be
    /// counted.
    pub open spec fn wf(&self) -> bool {
        &&& self.matched <= self.hashes@.len()
        &&& self.matched * self.tokens_per_block <= usize::MAX
    }

    /// Tokens the engine can skip prefilling.
    pub fn hit_tokens(&self) -> (tokens: usize)
        requires
            self.wf(),
        ensures
            tokens == self.matched * self.tokens_per_block,
    {
        self.matched * self.tokens_per_block
    }

    /// Blocks the engine must compute itself, and hand back afterwards.
    pub fn missing(&self) -> (missing: &[BlockHash])
        requires
            self.wf(),
        ensures
            missing@ == self.hashes@.subrange(self.matched as int, self.hashes@.len() as int),
    {
        vstd::slice::slice_subrange(self.hashes.as_slice(), self.matched, self.hashes.len())
    }

    pub fn is_full_hit(&self) -> (full: bool)
        ensures
            full == (self.hashes@.len() > 0 && self.matched == self.hashes@.len()),
    {
        self.hashes.len() > 0 && self.matched == self.hashes.len()
    }
}

/// A block that has to be written to disk before its memory can be given up.
///
/// Write `bytes` at `disk_slot` and report to `finish_demotion`, before
/// anything else is asked of the store.
pub struct Demotion {
    hash: BlockHash,
    slot: SlotId,
    disk_slot: DiskSlot,
    priority: u64,
    /// Whether it may be dropped instead.
    leaf: bool,
    data: Vec<u8>,
}

impl Demotion {
    /// The name of the block.
    pub closed spec fn name(&self) -> u128 {
        self.hash@
    }

    /// Where on disk it goes.
    pub closed spec fn target(&self) -> DiskSlot {
        self.disk_slot
    }

    /// What is to be written.
    pub closed spec fn payload(&self) -> Seq<u8> {
        self.data@
    }

    /// Whether it is dropped where the write fails.
    pub closed spec fn is_leaf(&self) -> bool {
        self.leaf
    }

    /// Its standing when it was chosen.
    pub closed spec fn price(&self) -> u64 {
        self.priority
    }

    pub fn hash(&self) -> (hash: BlockHash)
        ensures
            hash@ == self.name(),
    {
        self.hash
    }

    pub fn disk_slot(&self) -> (slot: DiskSlot)
        ensures
            slot == self.target(),
    {
        self.disk_slot
    }

    pub fn bytes(&self) -> (bytes: &[u8])
        ensures
            bytes@ == self.payload(),
    {
        self.data.as_slice()
    }
}

/// A demoted block with a RAM slot reserved for it, waiting to be filled.
pub struct Promotion {
    hash: BlockHash,
    disk_slot: DiskSlot,
    writer: BlockWriter,
    filled: bool,
}

impl Promotion {
    /// The name of the block.
    pub closed spec fn name(&self) -> u128 {
        self.hash@
    }

    /// Where on disk it is to be read.
    pub closed spec fn source(&self) -> DiskSlot {
        self.disk_slot
    }

    /// The slot in memory reserved for it.
    pub closed spec fn target(&self) -> u32 {
        self.writer.place()
    }

    /// What has been read so far.
    pub closed spec fn staged(&self) -> Seq<u8> {
        self.writer.staged()
    }

    /// Whether the read has been done.
    pub closed spec fn is_filled(&self) -> bool {
        self.filled
    }

    pub fn hash(&self) -> (hash: BlockHash)
        ensures
            hash@ == self.name(),
    {
        self.hash
    }

    pub fn disk_slot(&self) -> (slot: DiskSlot)
        ensures
            slot == self.source(),
    {
        self.disk_slot
    }

    /// Take the bytes read off disk. Safe to call with the store lock
    /// released: the destination slot is not in the index, so nothing can see
    /// it, and the block is pinned, so nothing can evict what is being read.
    pub fn fill(&mut self, data: &[u8])
        requires
            data@.len() == old(self).staged().len(),
        ensures
            final(self).name() == old(self).name(),
            final(self).source() == old(self).source(),
            final(self).target() == old(self).target(),
            final(self).staged() == data@,
            final(self).is_filled(),
    {
        self.writer.stage(data);
        self.filled = true;
    }
}

/// One block of a fetch: already in RAM, or waiting on a disk read.
pub enum FetchPart {
    Ready(PinnedBlock),
    Pending(Promotion),
}

impl FetchPart {
    /// The name of the block.
    pub open spec fn name(&self) -> u128 {
        match *self {
            FetchPart::Ready(block) => block.name(),
            FetchPart::Pending(promotion) => promotion.name(),
        }
    }

    /// Whether the block can be handed over.
    pub open spec fn is_ready(&self) -> bool {
        match *self {
            FetchPart::Ready(_) => true,
            FetchPart::Pending(promotion) => promotion.is_filled(),
        }
    }
}

/// How far a fetch got before it had to wait for a demotion.
pub struct FetchRun {
    parts: Vec<FetchPart>,
    /// Whether the next block is pinned already and only lacks memory.
    waiting: bool,
}

impl FetchRun {
    /// The blocks reserved so far.
    pub closed spec fn parts(&self) -> Seq<FetchPart> {
        self.parts@
    }

    /// Whether the next block is pinned already.
    pub closed spec fn is_waiting(&self) -> bool {
        self.waiting
    }

    pub fn new() -> (run: Self)
        ensures
            run.parts() == Seq::<FetchPart>::empty(),
            !run.is_waiting(),
    {
        FetchRun { parts: Vec::new(), waiting: false }
    }
}

/// How far the reservation of a fetch got.
pub enum FetchStep {
    Done(Vec<FetchPart>),
    /// Finish this demotion, then go on with the run.
    Demote(Demotion, FetchRun),
}

/// How far holding a run open got before it had to wait for the disk.
pub struct PinRun {
    blocks: Vec<PinnedBlock>,
    /// The next block, once it has memory to be read into.
    reading: Option<Promotion>,
}

impl PinRun {
    /// The blocks held open so far.
    pub closed spec fn blocks(&self) -> Seq<PinnedBlock> {
        self.blocks@
    }

    /// The block that is to be read off disk.
    pub closed spec fn reading(&self) -> Option<Promotion> {
        self.reading
    }

    /// Whether the last read failed.
    pub open spec fn is_broken(&self) -> bool {
        self.reading() matches Some(promotion) && !promotion.is_filled()
    }

    pub fn new() -> (run: Self)
        ensures
            run.blocks() == Seq::<PinnedBlock>::empty(),
            run.reading() is None,
    {
        PinRun { blocks: Vec::new(), reading: None }
    }

    /// Where on disk the next block is to be read.
    pub fn source(&self) -> (slot: Option<DiskSlot>)
        ensures
            slot == (match self.reading() {
                Some(promotion) => Some(promotion.source()),
                None => None,
            }),
    {
        match &self.reading {
            Some(promotion) => Some(promotion.disk_slot()),
            None => None,
        }
    }

    /// Take the bytes of the next block, read off disk.
    pub fn fill(&mut self, data: &[u8])
        requires
            old(self).reading() matches Some(promotion) && data@.len() == promotion.staged().len(),
        ensures
            final(self).blocks() == old(self).blocks(),
            final(self).reading() matches Some(promotion) && {
                &&& promotion.name() == old(self).reading()->0.name()
                &&& promotion.source() == old(self).reading()->0.source()
                &&& promotion.target() == old(self).reading()->0.target()
                &&& promotion.staged() == data@
                &&& promotion.is_filled()
            },
    {
        if let Some(promotion) = &mut self.reading {
            promotion.fill(data);
        }
    }
}

/// How far holding a run open got.
pub enum PinStep {
    Done(Vec<PinnedBlock>),
    /// Finish this demotion, then go on with the run.
    Demote(Demotion, PinRun),
    /// Read the block at the run's source off disk and fill the run with it,
    /// or not if the read failed. Then go on with the run.
    Read(PinRun),
}

/// A dirty RAM block with a disk slot reserved for its copy.
///
/// Write `bytes` at `disk_slot`, say so with `mark_written`, and hand the job
/// to `finish_writeback`. All of it is safe with the store lock released: the
/// block is pinned so it cannot move, and published blocks are immutable, so
/// the bytes cannot change under the write.
pub struct Writeback {
    hash: BlockHash,
    slot: SlotId,
    disk_slot: DiskSlot,
    block: PinnedBlock,
    written: bool,
}

impl Writeback {
    /// The name of the block.
    pub closed spec fn name(&self) -> u128 {
        self.hash@
    }

    /// Where in memory it lies.
    pub closed spec fn home(&self) -> SlotId {
        self.slot
    }

    /// Where on disk it goes.
    pub closed spec fn target(&self) -> DiskSlot {
        self.disk_slot
    }

    /// What is to be written.
    pub closed spec fn payload(&self) -> Seq<u8> {
        self.block.payload()
    }

    /// Whether the write has landed.
    pub closed spec fn is_written(&self) -> bool {
        self.written
    }

    pub fn hash(&self) -> (hash: BlockHash)
        ensures
            hash@ == self.name(),
    {
        self.hash
    }

    pub fn disk_slot(&self) -> (slot: DiskSlot)
        ensures
            slot == self.target(),
    {
        self.disk_slot
    }

    pub fn bytes(&self) -> (bytes: &[u8])
        ensures
            bytes@ == self.payload(),
    {
        self.block.bytes()
    }

    pub fn mark_written(&mut self)
        ensures
            final(self).name() == old(self).name(),
            final(self).home() == old(self).home(),
            final(self).target() == old(self).target(),
            final(self).payload() == old(self).payload(),
            final(self).is_written(),
    {
        self.written = true;
    }
}

/// The disk slots reserved for copies.
pub open spec fn job_slots(jobs: Seq<Writeback>) -> Set<u32>
    decreases jobs.len(),
{
    if jobs.len() == 0 {
        Set::empty()
    } else {
        job_slots(jobs.drop_last()).insert(jobs.last().target().number)
    }
}

/// How many of the first `count` copies landed on blocks that had none.
pub open spec fn copies_in(
    jobs: Seq<Writeback>,
    entries: Map<u128, Entry>,
    count: nat,
) -> nat
    decreases count,
{
    if count == 0 {
        0
    } else {
        copies_in(jobs, entries, (count - 1) as nat) + if jobs[count - 1].is_written()
            && entries[jobs[count - 1].name()].place.copy() is None {
            1nat
        } else {
            0nat
        }
    }
}

/// A block that lies in memory only, and that nobody reads.
pub open spec fn is_dirty_spare(entries: Map<u128, Entry>, name: u128) -> bool {
    &&& entries.dom().contains(name)
    &&& entries[name].place.copy() is None
    &&& entries[name].pins == 0
}

/// `ahead` lists `max` blocks that would be copied to disk before `name`.
pub open spec fn is_outranked(
    entries: Map<u128, Entry>,
    max: nat,
    name: u128,
    ahead: Seq<BlockHash>,
) -> bool {
    &&& ahead.len() == max
    &&& forall|i: int|
        0 <= i < max ==> {
            &&& is_dirty_spare(entries, (#[trigger] ahead[i])@)
            &&& crate::evict::standing(ahead[i]@, entries[ahead[i]@]).before(
                crate::evict::standing(name, entries[name]),
            )
        }
    &&& forall|i: int, j: int|
        0 <= i < j < max ==> (#[trigger] ahead[i])@ != (#[trigger] ahead[j])@
}

/// How often `name` occurs.
pub open spec fn occurrences(names: Seq<u128>, name: u128) -> nat
    decreases names.len(),
{
    if names.len() == 0 {
        0
    } else {
        occurrences(names.drop_last(), name) + if names.last() == name {
            1nat
        } else {
            0nat
        }
    }
}

/// The names of the blocks of a fetch.
pub open spec fn part_names(parts: Seq<FetchPart>) -> Seq<u128> {
    Seq::new(parts.len(), |i: int| parts[i].name())
}

/// The parts from `first` on are what came of holding `got` blocks open.
pub open spec fn is_part_run(
    opened: Seq<Opened>,
    parts: Seq<FetchPart>,
    first: int,
    got: int,
) -> bool {
    &&& 0 <= got <= opened.len()
    &&& forall|k: int|
        0 <= k < got ==> match #[trigger] opened[k] {
            Opened::Ready(block) => parts[first + k] == FetchPart::Ready(block),
            Opened::Pending(promotion) => parts[first + k] == FetchPart::Pending(promotion),
            _ => false,
        }
}

/// The blocks from `first` on are what came of holding `got` blocks open.
pub open spec fn is_ready_part_run(
    opened: Seq<Opened>,
    blocks: Seq<PinnedBlock>,
    first: int,
    got: int,
) -> bool {
    &&& 0 <= got <= opened.len()
    &&& forall|k: int|
        0 <= k < got ==> #[trigger] opened[k] == Opened::Ready(blocks[first + k])
}

/// The names of the blocks held open.
pub open spec fn pinned_names(blocks: Seq<PinnedBlock>) -> Seq<u128> {
    Seq::new(blocks.len(), |i: int| blocks[i].name())
}

/// The part of a fetch that came of holding a block open, if one did.
spec fn part_of(opened: Opened) -> Option<FetchPart> {
    match opened {
        Opened::Ready(block) => Some(FetchPart::Ready(block)),
        Opened::Pending(promotion) => Some(FetchPart::Pending(promotion)),
        _ => None,
    }
}

/// The slots reserved for the blocks of a fetch that are still on disk.
pub open spec fn part_slots(parts: Seq<FetchPart>) -> Set<u32>
    decreases parts.len(),
{
    if parts.len() == 0 {
        Set::empty()
    } else {
        match parts.last() {
            FetchPart::Ready(_) => part_slots(parts.drop_last()),
            FetchPart::Pending(promotion) => part_slots(parts.drop_last()).insert(
                promotion.target(),
            ),
        }
    }
}

/// The blocks that a fetch has pinned: its parts, and the one it waits for.
pub open spec fn claims(
    parts: Seq<FetchPart>,
    waiting: bool,
    hashes: Seq<BlockHash>,
) -> Seq<u128> {
    if waiting {
        part_names(parts).push(hashes[parts.len() as int]@)
    } else {
        part_names(parts)
    }
}

/// `count` is how many leading parts can be handed over.
pub open spec fn is_ready_run(parts: Seq<FetchPart>, count: nat) -> bool {
    &&& count <= parts.len()
    &&& forall|i: int| 0 <= i < count ==> (#[trigger] parts[i]).is_ready()
    &&& count < parts.len() ==> !parts[count as int].is_ready()
}

/// How many of the first `count` parts had to be read off disk.
pub open spec fn reads_in(parts: Seq<FetchPart>, count: nat) -> nat
    decreases count,
{
    if count == 0 {
        0
    } else {
        reads_in(parts, (count - 1) as nat) + match parts[count - 1] {
            FetchPart::Ready(_) => 0nat,
            FetchPart::Pending(_) => 1nat,
        }
    }
}

/// The first of the first `count` parts that reads `name` off disk.
pub open spec fn is_first_read(
    parts: Seq<FetchPart>,
    count: nat,
    i: int,
    promotion: Promotion,
) -> bool {
    &&& 0 <= i < count
    &&& parts[i] == FetchPart::Pending(promotion)
    &&& forall|j: int|
        0 <= j < i ==> !#[trigger] reads_name(parts, j, promotion.name())
}

/// Part `i` reads `name` off disk.
pub open spec fn reads_name(parts: Seq<FetchPart>, i: int, name: u128) -> bool {
    parts[i] matches FetchPart::Pending(promotion) && promotion.name() == name
}

proof fn lemma_occurs_once_more(names: Seq<u128>, last: u128)
    ensures
        forall|name: u128| #[trigger]
            occurrences(names.push(last), name) == occurrences(names, name) + if last == name {
                1nat
            } else {
                0nat
            },
{
    assert(names.push(last).drop_last() =~= names);
}

proof fn lemma_occurs(names: Seq<u128>, i: int)
    requires
        0 <= i < names.len(),
    ensures
        occurrences(names, names[i]) > 0,
    decreases names.len(),
{
    if i < names.len() - 1 {
        lemma_occurs(names.drop_last(), i);
        assert(names.drop_last()[i] == names[i]);
    }
}

proof fn lemma_occurs_in_part(names: Seq<u128>, count: int, name: u128)
    requires
        0 <= count <= names.len(),
    ensures
        occurrences(names.take(count), name) <= occurrences(names, name),
    decreases names.len(),
{
    if count < names.len() {
        lemma_occurs_in_part(names.drop_last(), count, name);
        assert(names.drop_last().take(count) =~= names.take(count));
    } else {
        assert(names.take(count) =~= names);
    }
}

proof fn lemma_part_names_push(parts: Seq<FetchPart>, part: FetchPart)
    ensures
        part_names(parts.push(part)) == part_names(parts).push(part.name()),
{
    assert(part_names(parts.push(part)) =~= part_names(parts).push(part.name()));
}

proof fn lemma_part_slots(parts: Seq<FetchPart>, i: int)
    requires
        0 <= i < parts.len(),
    ensures
        parts[i] matches FetchPart::Pending(promotion) ==> part_slots(parts).contains(
            promotion.target(),
        ),
    decreases parts.len(),
{
    if i < parts.len() - 1 {
        lemma_part_slots(parts.drop_last(), i);
        assert(parts.drop_last()[i] == parts[i]);
    }
}

#[derive(Clone, Copy, Debug, PartialEq, Eq, Structural)]
pub enum Admit {
    Inserted,
    /// Some other sequence already computed this block.
    AlreadyPresent,
    /// Full, and every resident block is pinned or has children.
    OutOfSpace,
    /// The preceding block is not resident, so this one is unusable.
    OrphanParent,
}

/// How far an admission got.
pub enum AdmitStep {
    Done(Admit),
    /// Finish this demotion, then ask again.
    Demote(Demotion),
}

#[derive(Clone, Copy, Debug, PartialEq, Eq, Structural)]
pub struct AdmitReport {
    pub inserted: usize,
    pub deduped: usize,
    /// Declined, including everything after the first failure: once a link
    /// is missing the rest of the chain is unusable.
    pub dropped: usize,
}

impl Default for AdmitReport {
    fn default() -> (report: Self)
        ensures
            report == (AdmitReport { inserted: 0, deduped: 0, dropped: 0 }),
    {
        AdmitReport { inserted: 0, deduped: 0, dropped: 0 }
    }
}

/// How far the admission of a chain got before it had to wait for a demotion.
#[derive(Clone, Copy, Debug)]
pub struct ChainRun {
    inserted: usize,
    deduped: usize,
}

impl ChainRun {
    /// Blocks stored so far.
    pub closed spec fn stored(&self) -> nat {
        self.inserted as nat
    }

    /// Blocks found already present so far.
    pub closed spec fn found(&self) -> nat {
        self.deduped as nat
    }

    /// The next block to admit.
    pub open spec fn next(&self) -> nat {
        self.stored() + self.found()
    }

    pub fn new() -> (run: Self)
        ensures
            run.stored() == 0,
            run.found() == 0,
    {
        ChainRun { inserted: 0, deduped: 0 }
    }
}

/// How far the admission of a chain got.
pub enum ChainStep {
    Done(AdmitReport),
    /// Finish this demotion, then go on with the run.
    Demote(Demotion, ChainRun),
}

/// What the `i`-th block of a chain hangs below.
pub open spec fn link_above(
    parent: Option<BlockHash>,
    names: Seq<(BlockHash, u32)>,
    i: int,
) -> Option<BlockHash> {
    if i == 0 {
        parent
    } else {
        Some(names[i - 1].0)
    }
}

/// How many of the steps took a block in.
pub open spec fn taken_in(steps: Seq<AdmitStep>) -> nat
    decreases steps.len(),
{
    if steps.len() == 0 {
        0
    } else {
        taken_in(steps.drop_last()) + if steps.last() == AdmitStep::Done(Admit::Inserted) {
            1nat
        } else {
            0nat
        }
    }
}

/// How many of the steps found a block present.
pub open spec fn found_in(steps: Seq<AdmitStep>) -> nat
    decreases steps.len(),
{
    if steps.len() == 0 {
        0
    } else {
        found_in(steps.drop_last()) + if steps.last() == AdmitStep::Done(Admit::AlreadyPresent) {
            1nat
        } else {
            0nat
        }
    }
}

/// A step after which a chain goes on.
pub open spec fn goes_on(step: AdmitStep) -> bool {
    step == AdmitStep::Done(Admit::Inserted) || step == AdmitStep::Done(Admit::AlreadyPresent)
}

/// The names and depths of the first `count` blocks of a sequence.
pub open spec fn sequence_links(
    root: u128,
    width: nat,
    tokens: Seq<TokenId>,
    count: nat,
) -> Seq<(BlockHash, u32)> {
    Seq::new(
        count,
        |i: int|
            (
                BlockHash { name: crate::block::chain_name(root, width, tokens, i as nat) },
                ((i + 1) * width) as u32,
            ),
    )
}

/// What came of holding a block open.
pub enum Opened {
    /// Its bytes are in memory.
    Ready(PinnedBlock),
    /// Its bytes have to be read off disk.
    Pending(Promotion),
    /// There is no such block, or no memory to read it into.
    Gap,
    /// There will be memory to read it into once this is on disk.
    Demote(Demotion),
}

/// How a search for memory ended.
enum Room {
    /// A slot was freed by giving up this block.
    Freed(BlockHash),
    /// A slot will be free once this block has been written to disk.
    Demote(Demotion),
    /// Nothing can be given up.
    Refused,
}

pub struct KvStore<C> {
    model_id: String,
    layout: BlockLayout,
    hasher: PrefixHasher,
    slab: Slab,
    index: Index,
    disk: Option<DiskTier>,
    /// One clock per tier: a block's standing in RAM says nothing about its
    /// standing among the blocks already on disk.
    ram_policy: GreedyDual,
    disk_policy: GreedyDual,
    costs: C,
    stats: Stats,
    ledger: Ghost<Ledger>,
}

/// `after` is `before` with the priority of `name` set as of its last access.
pub open spec fn repriced(
    before: Map<u128, Entry>,
    after: Map<u128, Entry>,
    name: u128,
) -> bool {
    if before.dom().contains(name) {
        after == before.insert(
            name,
            Entry {
                priority: after[name].priority,
                priority_access: before[name].last_access,
                ..before[name]
            },
        )
    } else {
        after == before
    }
}

/// `after` is `before` without the leaf `name`. A parent that became a leaf
/// itself has been repriced.
pub open spec fn dropped(before: Map<u128, Entry>, after: Map<u128, Entry>, name: u128) -> bool {
    let pruned = crate::index::detached(before, name);
    match before[name].parent {
        Some(parent) => if pruned[parent@].children == 0 {
            repriced(pruned, after, parent@)
        } else {
            after == pruned
        },
        None => after == pruned,
    }
}

/// The higher of two priorities.
pub open spec fn higher(a: u64, b: u64) -> u64 {
    if b > a {
        b
    } else {
        a
    }
}

/// A block's priority is what it is worth at the clock of its tier.
pub open spec fn is_worth<C: Costs>(costs: C, ram: u64, disk: u64, entry: Entry) -> bool {
    crate::evict::priced(
        costs,
        if entry.place is Ram {
            ram
        } else {
            disk
        },
        entry.depth_tokens,
        entry.priority,
    )
}

/// Where `name` was the last below its parent, the parent has got the priority
/// that it is worth at these clocks.
pub open spec fn leaves_worth<C: Costs>(
    costs: C,
    ram: u64,
    disk: u64,
    before: Map<u128, Entry>,
    after: Map<u128, Entry>,
    name: u128,
) -> bool {
    before[name].parent matches Some(parent) ==> after[parent@].children == 0 ==> is_worth(
        costs,
        ram,
        disk,
        after[parent@],
    )
}

/// `after` is `before` with `name` on disk only, in `slot`, and repriced.
pub open spec fn pushed_out(
    before: Map<u128, Entry>,
    after: Map<u128, Entry>,
    name: u128,
    slot: DiskSlot,
) -> bool {
    repriced(
        before.insert(name, Entry { place: Place::Disk(slot), ..before[name] }),
        after,
        name,
    )
}

/// A block in memory that nobody reads and that need not be kept.
pub open spec fn is_idle(
    entries: Map<u128, Entry>,
    protect: Option<BlockHash>,
    name: u128,
) -> bool {
    &&& entries.dom().contains(name)
    &&& entries[name].place is Ram
    &&& entries[name].pins == 0
    &&& protect matches Some(protect) ==> protect@ != name
}

/// Whether a block has to be among the candidates of its tier: a leaf unless
/// it is loose, and in memory any other block too unless it was passed over.
pub open spec fn is_due(
    entries: Map<u128, Entry>,
    loose: Set<u128>,
    passed: Set<u128>,
    name: u128,
) -> bool {
    &&& !loose.contains(name)
    &&& entries[name].children == 0 || (entries[name].place is Ram && !passed.contains(name))
}

/// A block that could be given up for lack of memory without a thought for
/// others: in memory, nothing hangs below it, nobody reads it.
pub open spec fn is_spare(
    entries: Map<u128, Entry>,
    protect: Option<BlockHash>,
    name: u128,
) -> bool {
    &&& entries.dom().contains(name)
    &&& entries[name].place is Ram
    &&& entries[name].children == 0
    &&& entries[name].pins == 0
    &&& protect matches Some(protect) ==> protect@ != name
}

/// The same of a block on disk.
pub open spec fn is_spare_on_disk(
    entries: Map<u128, Entry>,
    protect: Option<BlockHash>,
    name: u128,
) -> bool {
    &&& entries.dom().contains(name)
    &&& entries[name].place is Disk
    &&& entries[name].children == 0
    &&& entries[name].pins == 0
    &&& protect matches Some(protect) ==> protect@ != name
}

/// `name` is in memory, unpinned and unprotected, and no such block that has to
/// be a candidate would go before it.
pub open spec fn is_next_out(
    entries: Map<u128, Entry>,
    loose: Set<u128>,
    passed: Set<u128>,
    protect: Option<BlockHash>,
    name: u128,
) -> bool {
    &&& is_idle(entries, protect, name)
    &&& forall|other: u128| #[trigger]
        is_idle(entries, protect, other) && is_due(entries, loose, passed, other)
            ==> !crate::evict::standing(other, entries[other]).before(
            crate::evict::standing(name, entries[name]),
        )
}

/// The same among the blocks on disk.
pub open spec fn is_next_off_disk(
    entries: Map<u128, Entry>,
    loose: Set<u128>,
    protect: Option<BlockHash>,
    name: u128,
) -> bool {
    &&& is_spare_on_disk(entries, protect, name)
    &&& forall|other: u128| #[trigger]
        is_spare_on_disk(entries, protect, other) && !loose.contains(other)
            ==> !crate::evict::standing(other, entries[other]).before(
            crate::evict::standing(name, entries[name]),
        )
}

/// `after` is `before` with `name` given up: pushed out to its copy on disk if
/// it has one, else dropped.
pub open spec fn gave_way(before: Map<u128, Entry>, after: Map<u128, Entry>, name: u128) -> bool {
    match before[name].place.copy() {
        Some(copy) => pushed_out(before, after, name, copy),
        None => before[name].children == 0 && dropped(before, after, name),
    }
}

/// `after` is `before` with the new block `name` in memory.
pub open spec fn landed(
    before: Map<u128, Entry>,
    after: Map<u128, Entry>,
    name: u128,
    parent: Option<BlockHash>,
    depth_tokens: u32,
    now: u64,
) -> bool {
    let place = after[name].place;
    &&& place is Ram
    &&& place.copy() is None
    &&& repriced(
        crate::index::attached(
            before,
            name,
            crate::index::fresh_entry(place, parent, depth_tokens, now),
        ),
        after,
        name,
    )
}

/// Every block that has to be is a candidate in its tier.
pub open spec fn is_covered(
    entries: Map<u128, Entry>,
    ram: Multiset<Candidate>,
    disk: Multiset<Candidate>,
    loose: Set<u128>,
    passed: Set<u128>,
) -> bool {
    forall|name: u128| #[trigger]
        entries.dom().contains(name) && is_due(entries, loose, passed, name) ==> {
            if entries[name].place is Ram {
                ram.contains(crate::evict::standing(name, entries[name]))
            } else {
                disk.contains(crate::evict::standing(name, entries[name]))
            }
        }
}

impl<C: Costs> KvStore<C> {
    /// The resident blocks, by name.
    pub closed spec fn entries(&self) -> Map<u128, Entry> {
        self.index@
    }

    /// The model the blocks belong to.
    pub closed spec fn model(&self) -> Seq<char> {
        self.model_id@
    }

    /// The shape of a block.
    pub closed spec fn shape(&self) -> BlockLayout {
        self.layout
    }

    /// The name that first blocks attach to.
    pub closed spec fn root(&self) -> u128 {
        self.hasher.root()
    }

    /// What blocks cost.
    pub closed spec fn pricing(&self) -> C {
        self.costs
    }

    /// The mapping that the blocks in memory lie in.
    pub closed spec fn mapping(&self) -> memmap2::MmapMut {
        self.slab.mapping()
    }

    /// Slots in memory, whether or not they are in use.
    pub closed spec fn slots(&self) -> nat {
        self.slab.slots()
    }

    /// Slots in memory that are not in use.
    pub closed spec fn free_slots(&self) -> nat {
        self.slab.stack().len()
    }

    /// Whether there is a disk tier.
    pub closed spec fn tiered(&self) -> bool {
        self.disk is Some
    }

    /// Slots on disk that are not in use.
    pub closed spec fn free_disk_slots(&self) -> nat {
        match self.disk {
            Some(disk) => disk.stack().len(),
            None => 0,
        }
    }

    /// Slots on disk, whether or not they are in use.
    pub closed spec fn disk_slots(&self) -> nat {
        match self.disk {
            Some(disk) => disk.slots(),
            None => 0,
        }
    }

    /// Slots on disk in use.
    pub closed spec fn disk_slots_used(&self) -> nat {
        match self.disk {
            Some(disk) => disk.taken().len(),
            None => 0,
        }
    }

    /// What has gone to disk and come back.
    pub closed spec fn moved(&self) -> Option<DiskStats> {
        match self.disk {
            Some(disk) => Some(disk.moved()),
            None => None,
        }
    }

    /// Slots in memory held in reserve for blocks on their way in.
    pub closed spec fn reserved(&self) -> Set<u32> {
        self.ledger@.ram_held
    }

    /// Slots on disk held in reserve for blocks on their way out.
    pub closed spec fn reserved_on_disk(&self) -> Set<u32> {
        self.ledger@.disk_held
    }

    /// Blocks withheld from the candidates for now: leaves on their way to disk
    /// with somebody writing them, and what has not been used since the costs
    /// were replaced.
    pub closed spec fn withheld(&self) -> Set<u128> {
        self.ledger@.loose
    }

    /// Blocks in memory with others below them that have left the candidates:
    /// they could neither be dropped nor demoted. Their next use brings them
    /// back.
    pub closed spec fn passed_over(&self) -> Set<u128> {
        self.ledger@.parked
    }

    /// What has been counted so far.
    pub closed spec fn counters(&self) -> Stats {
        self.stats
    }

    /// The logical clock of accesses.
    pub closed spec fn clock(&self) -> u64 {
        self.index.clock()
    }

    /// The inflation clock of the blocks in memory.
    pub closed spec fn ram_inflation(&self) -> u64 {
        self.ram_policy.clock()
    }

    /// The inflation clock of the blocks on disk.
    pub closed spec fn disk_inflation(&self) -> u64 {
        self.disk_policy.clock()
    }

    /// Candidates among the blocks in memory, stale ones among them.
    pub closed spec fn ram_candidates(&self) -> nat {
        self.ram_policy@.len()
    }

    /// Candidates among the blocks on disk, stale ones among them.
    pub closed spec fn disk_candidates(&self) -> nat {
        self.disk_policy@.len()
    }

    /// The candidates of the tier that `name` is in have not piled up: most of
    /// them are what they say.
    pub open spec fn is_lean(&self, name: u128) -> bool {
        !crate::evict::is_crowded(
            if self.entries()[name].place is Ram {
                self.ram_candidates()
            } else {
                self.disk_candidates()
            },
            self.entries().len(),
        )
    }

    /// The same of the tier that the parent of `name` is in, where `name` was
    /// the last below it.
    pub open spec fn leaves_lean(&self, before: Map<u128, Entry>, name: u128) -> bool {
        before[name].parent matches Some(parent) ==> self.entries()[parent@].children == 0
            ==> self.is_lean(parent@)
    }

    /// What never changes once the store is set up.
    pub open spec fn same_setup(&self, after: &Self) -> bool {
        &&& after.model() == self.model()
        &&& after.shape() == self.shape()
        &&& after.root() == self.root()
        &&& after.pricing() == self.pricing()
        &&& after.slots() == self.slots()
        &&& after.tiered() == self.tiered()
        &&& after.disk_slots() == self.disk_slots()
    }

    /// Nothing has happened but that something may have been counted, or
    /// passed over.
    pub open spec fn same_state(&self, after: &Self) -> bool {
        &&& self.same_setup(after)
        &&& after.entries() == self.entries()
        &&& forall|name: u128| #[trigger]
            self.entries().dom().contains(name) ==> after.contents(name) == self.contents(name)
        &&& after.clock() == self.clock()
        &&& after.free_slots() == self.free_slots()
        &&& after.free_disk_slots() == self.free_disk_slots()
        &&& after.moved() == self.moved()
        &&& after.reserved() == self.reserved()
        &&& after.reserved_on_disk() == self.reserved_on_disk()
        &&& after.withheld() == self.withheld()
        &&& after.ram_inflation() == self.ram_inflation()
        &&& after.disk_inflation() == self.disk_inflation()
    }

    /// `name` is the same block afterwards: same history, same bytes, same
    /// readers. Only where it lies may differ.
    pub open spec fn carries(&self, after: &Self, name: u128) -> bool {
        &&& self.entries().dom().contains(name)
        &&& after.entries().dom().contains(name)
        &&& after.entries()[name].parent == self.entries()[name].parent
        &&& after.entries()[name].depth_tokens == self.entries()[name].depth_tokens
        &&& after.entries()[name].pins == self.entries()[name].pins
        &&& after.contents(name) == self.contents(name)
    }

    /// Whatever somebody reads stays where it is.
    pub open spec fn keeps_pinned(&self, after: &Self) -> bool {
        forall|name: u128| #[trigger]
            self.entries().dom().contains(name) && self.entries()[name].pins > 0 ==> {
                &&& self.carries(after, name)
                &&& after.entries()[name].place == self.entries()[name].place
            }
    }

    spec fn disk_taken(&self) -> Set<u32> {
        match self.disk {
            Some(disk) => disk.taken(),
            None => Set::empty(),
        }
    }

    /// A block's bytes, wherever they lie.
    pub closed spec fn contents(&self, name: u128) -> Seq<u8> {
        match self.index@[name].place {
            Place::Ram { slot, .. } => self.slab.bytes_at(slot.number),
            Place::Disk(slot) => self.ledger@.image[slot.number],
        }
    }

    /// Everything but that leaves are candidates.
    spec fn sound(&self) -> bool {
        &&& self.index.wf()
        &&& self.slab.wf()
        &&& self.ram_policy.wf()
        &&& self.disk_policy.wf()
        &&& self.layout.sized()
        &&& self.layout.size() == self.slab.width()
        &&& self.layout.tokens_per_block > 0
        &&& self.hasher.width() == self.layout.tokens_per_block
        &&& self.disk matches Some(disk) ==> disk.wf() && disk.width() == self.slab.width()
        &&& crate::ledger::tallies(
            crate::ledger::ram_map(self.index@),
            self.ledger@.ram_owner,
            self.ledger@.ram_held,
            self.slab.taken(),
        )
        &&& crate::ledger::tallies(
            crate::ledger::disk_map(self.index@),
            self.ledger@.disk_owner,
            self.ledger@.disk_held,
            self.disk_taken(),
        )
        &&& self.copies_agree()
    }

    /// A block in both tiers reads the same in both.
    spec fn copies_agree(&self) -> bool {
        forall|name: u128| #[trigger]
            self.index@.dom().contains(name) ==> match self.index@[name].place {
                Place::Ram { slot, backing: Some(backing) } => self.slab.bytes_at(slot.number)
                    == self.ledger@.image[backing.number],
                Place::Ram { backing: None, .. } => true,
                Place::Disk(slot) => self.ledger@.image[slot.number].len() == self.slab.width(),
            }
    }

    spec fn covered(&self, loose: Set<u128>) -> bool {
        is_covered(
            self.index@,
            self.ram_policy@,
            self.disk_policy@,
            loose,
            self.ledger@.parked,
        )
    }

    pub closed spec fn wf(&self) -> bool {
        self.sound() && self.covered(self.ledger@.loose)
    }

    /// What never changes: the model, the shape of a block, the costs.
    spec fn same_fields(&self, after: &Self) -> bool {
        &&& after.model_id == self.model_id
        &&& after.layout == self.layout
        &&& after.hasher == self.hasher
        &&& after.costs == self.costs
    }

    /// Raise a block's eviction priority to reflect having just been used,
    /// and re-offer it to the policy at its new value.
    fn reprice(&mut self, hash: BlockHash)
        requires
            old(self).sound(),
            old(self).covered(old(self).ledger@.loose.insert(hash@)),
        ensures
            final(self).wf(),
            final(self).ledger@ == (Ledger {
                loose: old(self).ledger@.loose.remove(hash@),
                parked: old(self).ledger@.parked.remove(hash@),
                ..old(self).ledger@
            }),
            old(self).same_fields(final(self)),
            final(self).slab == old(self).slab,
            final(self).disk == old(self).disk,
            final(self).stats == old(self).stats,
            final(self).index.clock() == old(self).index.clock(),
            final(self).ram_policy.clock() == old(self).ram_policy.clock(),
            final(self).disk_policy.clock() == old(self).disk_policy.clock(),
            repriced(old(self).index@, final(self).index@, hash@),
            final(self).index@.dom() == old(self).index@.dom(),
            old(self).index@.dom().contains(hash@) ==> crate::evict::priced(
                old(self).costs,
                if old(self).index@[hash@].place is Ram {
                    old(self).ram_policy.clock()
                } else {
                    old(self).disk_policy.clock()
                },
                old(self).index@[hash@].depth_tokens,
                final(self).index@[hash@].priority,
            ),
            old(self).index@.dom().contains(hash@) ==> final(self).is_lean(hash@),
            old(self).index@.dom().contains(hash@) && old(self).index@[hash@].place is Ram
                ==> final(self).disk_policy == old(self).disk_policy,
            !(old(self).index@.dom().contains(hash@) && old(self).index@[hash@].place is Ram)
                ==> final(self).ram_policy == old(self).ram_policy,
    {
        let entry: Entry = match self.index.get(hash) {
            None => {
                proof {
                    self.ledger@.loose = self.ledger@.loose.remove(hash@);
                    self.ledger@.parked = self.ledger@.parked.remove(hash@);
                }
                return ;
            },
            Some(entry) => *entry,
        };
        let resident: usize = self.index.len();
        if entry.place.is_ram() {
            let priority: u64 = self.ram_policy.priority_for(&self.costs, entry.depth_tokens);
            self.ram_policy.offer(hash, priority, entry.last_access);
            let crowded = self.ram_policy.should_compact(resident);
            // Stamps `priority_access` from `last_access`, matching what was
            // just offered.
            self.index.set_priority(hash, priority);
            if crowded {
                self.ram_policy.compact(&self.index, Wanted::InRam);
            }
        } else {
            let priority: u64 = self.disk_policy.priority_for(&self.costs, entry.depth_tokens);
            self.disk_policy.offer(hash, priority, entry.last_access);
            let crowded = self.disk_policy.should_compact(resident);
            self.index.set_priority(hash, priority);
            if crowded {
                self.disk_policy.compact(&self.index, Wanted::OnDisk);
            }
        }
        proof {
            self.ledger@.loose = self.ledger@.loose.remove(hash@);
            self.ledger@.parked = self.ledger@.parked.remove(hash@);
            assert(self.index@.dom() =~= old(self).index@.dom());
            assert(self.index@.len() == resident);
            assert(crate::ledger::ram_map(self.index@) =~= crate::ledger::ram_map(old(self).index@));
            assert(crate::ledger::disk_map(self.index@) =~= crate::ledger::disk_map(
                old(self).index@,
            ));
            assert forall|name: u128| #[trigger]
                self.index@.dom().contains(name) && is_due(
                        self.index@,
                        self.ledger@.loose,
                        self.ledger@.parked,
                        name,
                    ) implies {
                if self.index@[name].place is Ram {
                    self.ram_policy@.contains(crate::evict::standing(name, self.index@[name]))
                } else {
                    self.disk_policy@.contains(crate::evict::standing(name, self.index@[name]))
                }
            } by {
                assert(old(self).index@.dom().contains(name));
                assert(crate::evict::is_fresh(
                    self.index@,
                    crate::evict::standing(name, self.index@[name]),
                ));
            }
        }
    }

    /// Bytes stay where they are, in memory and on disk.
    spec fn same_bytes(&self, after: &Self) -> bool {
        &&& forall|slot: u32| #[trigger]
            after.slab.bytes_at(slot) == self.slab.bytes_at(slot)
        &&& after.ledger@.image == self.ledger@.image
        &&& after.slab.width() == self.slab.width()
        &&& after.slab.slots() == self.slab.slots()
    }

    /// Claim a slot in memory and hold it in reserve.
    fn hold_slot(&mut self) -> (slot: Option<SlotId>)
        requires
            old(self).wf(),
        ensures
            final(self).wf(),
            old(self).same_fields(final(self)),
            old(self).same_bytes(final(self)),
            final(self).index == old(self).index,
            final(self).disk == old(self).disk,
            final(self).ram_policy == old(self).ram_policy,
            final(self).disk_policy == old(self).disk_policy,
            final(self).stats == old(self).stats,
            match slot {
                Some(slot) => {
                    &&& old(self).slab.stack().len() > 0
                    &&& slot.number == old(self).slab.stack().last()
                    &&& final(self).slab.stack() == old(self).slab.stack().drop_last()
                    &&& slot.number < old(self).slab.slots()
                    &&& !old(self).ledger@.ram_held.contains(slot.number)
                    &&& final(self).ledger@ == (Ledger {
                        ram_held: old(self).ledger@.ram_held.insert(slot.number),
                        ..old(self).ledger@
                    })
                },
                None => {
                    &&& old(self).slab.stack().len() == 0
                    &&& final(self).slab.stack() == old(self).slab.stack()
                    &&& final(self).ledger@ == old(self).ledger@
                },
            },
    {
        let slot = self.slab.claim();
        proof {
            if let Some(slot) = slot {
                crate::ledger::lemma_hold(
                    crate::ledger::ram_map(self.index@),
                    self.ledger@.ram_owner,
                    self.ledger@.ram_held,
                    old(self).slab.taken(),
                    slot.number,
                );
                self.ledger@.ram_held = self.ledger@.ram_held.insert(slot.number);
            }
        }
        slot
    }

    /// Give back a slot that was held in reserve.
    fn let_go(&mut self, slot: SlotId)
        requires
            old(self).wf(),
            old(self).ledger@.ram_held.contains(slot.number),
        ensures
            final(self).wf(),
            old(self).same_fields(final(self)),
            old(self).same_bytes(final(self)),
            final(self).index == old(self).index,
            final(self).disk == old(self).disk,
            final(self).ram_policy == old(self).ram_policy,
            final(self).disk_policy == old(self).disk_policy,
            final(self).stats == old(self).stats,
            final(self).slab.stack() == old(self).slab.stack().push(slot.number),
            final(self).ledger@ == (Ledger {
                ram_held: old(self).ledger@.ram_held.remove(slot.number),
                ..old(self).ledger@
            }),
    {
        self.slab.free(slot);
        proof {
            crate::ledger::lemma_let_go(
                crate::ledger::ram_map(self.index@),
                self.ledger@.ram_owner,
                self.ledger@.ram_held,
                old(self).slab.taken(),
                slot.number,
            );
            self.ledger@.ram_held = self.ledger@.ram_held.remove(slot.number);
        }
    }

    /// Remove a leaf and free what it occupied.
    fn remove_block(&mut self, victim: BlockHash)
        requires
            old(self).sound(),
            old(self).covered(old(self).ledger@.loose.insert(victim@)),
            old(self).index@.dom().contains(victim@),
            old(self).index@[victim@].children == 0,
        ensures
            final(self).wf(),
            old(self).same_fields(final(self)),
            old(self).same_bytes(final(self)),
            final(self).index.clock() == old(self).index.clock(),
            final(self).ram_policy.clock() == old(self).ram_policy.clock(),
            final(self).disk_policy.clock() == old(self).disk_policy.clock(),
            dropped(old(self).index@, final(self).index@, victim@),
            final(self).leaves_lean(old(self).index@, victim@),
            leaves_worth(
                old(self).costs,
                old(self).ram_policy.clock(),
                old(self).disk_policy.clock(),
                old(self).index@,
                final(self).index@,
                victim@,
            ),
            final(self).index@.dom() == old(self).index@.dom().remove(victim@),
            final(self).slab.stack() == (match old(self).index@[victim@].place.slot() {
                Some(slot) => old(self).slab.stack().push(slot.number),
                None => old(self).slab.stack(),
            }),
            final(self).disk is Some == old(self).disk is Some,
            match (old(self).disk, final(self).disk) {
                (Some(before), Some(after)) => {
                    &&& after.moved() == before.moved()
                    &&& after.slots() == before.slots()
                    &&& after.stack() == (match old(self).index@[victim@].place.copy() {
                        Some(slot) => before.stack().push(slot.number),
                        None => before.stack(),
                    })
                },
                _ => true,
            },
            final(self).ledger@.ram_held == old(self).ledger@.ram_held,
            final(self).ledger@.disk_held == old(self).ledger@.disk_held,
            final(self).ledger@.loose.subset_of(old(self).ledger@.loose.remove(victim@)),
            final(self).ledger@.parked.subset_of(old(self).ledger@.parked),
            final(self).stats == (Stats {
                evicted_blocks: crate::tier::raised(old(self).stats.evicted_blocks, 1),
                ..old(self).stats
            }),
    {
        let ghost before = *self;
        let entry: Entry = match self.index.remove(victim) {
            Ok(entry) => entry,
            Err(_) => {
                return ;
            },
        };
        if let Some(slot) = entry.place.ram() {
            proof {
                crate::ledger::lemma_vacate(
                    crate::ledger::ram_map(before.index@),
                    self.ledger@.ram_owner,
                    self.ledger@.ram_held,
                    self.slab.taken(),
                    victim@,
                );
                self.ledger@.ram_owner = self.ledger@.ram_owner.remove(slot.number);
            }
            self.slab.free(slot);
        }
        if let Some(backing) = entry.place.backing() {
            proof {
                crate::ledger::lemma_vacate(
                    crate::ledger::disk_map(before.index@),
                    self.ledger@.disk_owner,
                    self.ledger@.disk_held,
                    before.disk_taken(),
                    victim@,
                );
                self.ledger@.disk_owner = self.ledger@.disk_owner.remove(backing.number);
            }
            if let Some(disk) = &mut self.disk {
                disk.free(backing);
            }
        }
        self.stats.evicted_blocks = self.stats.evicted_blocks.saturating_add(1);
        // The parent may have just become a leaf, which makes it removable.
        let mut freed: Option<BlockHash> = None;
        if let Some(parent) = entry.parent {
            if let Some(above) = self.index.get(parent) {
                if above.children == 0 {
                    freed = Some(parent);
                }
            }
        }
        proof {
            self.ledger@.loose = self.ledger@.loose.remove(victim@);
            assert(crate::ledger::ram_map(self.index@) =~= crate::ledger::ram_map(
                before.index@,
            ).remove(victim@));
            assert(crate::ledger::disk_map(self.index@) =~= crate::ledger::disk_map(
                before.index@,
            ).remove(victim@));
            assert(self.ledger@.ram_held == before.ledger@.ram_held);
            let open = match freed {
                Some(parent) => self.ledger@.loose.insert(parent@),
                None => self.ledger@.loose,
            };
            assert forall|name: u128| #[trigger]
                self.index@.dom().contains(name) && is_due(
                        self.index@,
                        open,
                        self.ledger@.parked,
                        name,
                    ) implies {
                if self.index@[name].place is Ram {
                    self.ram_policy@.contains(crate::evict::standing(name, self.index@[name]))
                } else {
                    self.disk_policy@.contains(crate::evict::standing(name, self.index@[name]))
                }
            } by {
                assert(before.index@.dom().contains(name));
            }
            assert(self.copies_agree()) by {
                assert forall|name: u128| #[trigger]
                    self.index@.dom().contains(name) implies match self.index@[name].place {
                    Place::Ram { slot, backing: Some(backing) } => self.slab.bytes_at(slot.number)
                        == self.ledger@.image[backing.number],
                    Place::Ram { backing: None, .. } => true,
                    Place::Disk(slot) => self.ledger@.image[slot.number].len()
                        == self.slab.width(),
                } by {
                    assert(before.index@.dom().contains(name));
                }
            }
        }
        if let Some(parent) = freed {
            self.reprice(parent);
        }
    }

    /// Drop the cheapest disk-resident leaf, to make room for a demotion. The
    /// block that is about to get a child is not it.
    fn make_disk_room(&mut self, protect: Option<BlockHash>) -> (victim: Option<BlockHash>)
        requires
            old(self).wf(),
        ensures
            final(self).wf(),
            old(self).same_fields(final(self)),
            old(self).same_bytes(final(self)),
            final(self).slab.stack() == old(self).slab.stack(),
            final(self).ledger@.ram_held == old(self).ledger@.ram_held,
            final(self).ledger@.disk_held == old(self).ledger@.disk_held,
            final(self).ledger@.loose.subset_of(old(self).ledger@.loose),
            final(self).ledger@.parked.subset_of(old(self).ledger@.parked),
            final(self).index.clock() == old(self).index.clock(),
            final(self).ram_policy.clock() == old(self).ram_policy.clock(),
            final(self).disk_policy.clock() >= old(self).disk_policy.clock(),
            match victim {
                Some(victim) => {
                    &&& is_next_off_disk(
                        old(self).index@,
                        old(self).ledger@.loose,
                        protect,
                        victim@,
                    )
                    &&& old(self).disk is Some
                    &&& final(self).disk is Some
                    &&& final(self).disk->0.stack().len() == old(self).disk->0.stack().len() + 1
                    &&& final(self).disk->0.moved() == old(self).disk->0.moved()
                    &&& final(self).disk->0.slots() == old(self).disk->0.slots()
                    &&& dropped(old(self).index@, final(self).index@, victim@)
                    &&& final(self).disk_policy.clock() == higher(
                        old(self).disk_policy.clock(),
                        old(self).index@[victim@].priority,
                    )
                    &&& final(self).leaves_lean(old(self).index@, victim@)
                    &&& leaves_worth(
                        old(self).costs,
                        final(self).ram_policy.clock(),
                        final(self).disk_policy.clock(),
                        old(self).index@,
                        final(self).index@,
                        victim@,
                    )
                    &&& final(self).index@.dom() == old(self).index@.dom().remove(victim@)
                    &&& final(self).stats == (Stats {
                        evicted_blocks: crate::tier::raised(old(self).stats.evicted_blocks, 1),
                        ..old(self).stats
                    })
                },
                None => {
                    &&& forall|name: u128| #[trigger]
                        is_spare_on_disk(old(self).index@, protect, name)
                            ==> old(self).ledger@.loose.contains(name)
                    &&& final(self).index == old(self).index
                    &&& final(self).slab == old(self).slab
                    &&& final(self).disk == old(self).disk
                    &&& final(self).ram_policy == old(self).ram_policy
                    &&& final(self).disk_policy.clock() == old(self).disk_policy.clock()
                    &&& final(self).ledger@ == old(self).ledger@
                    &&& final(self).stats == old(self).stats
                },
            },
    {
        let chosen = self.disk_policy.select_victim(&self.index, protect, Wanted::DiskLeaf);
        proof {
            assert forall|name: u128| #[trigger]
                is_spare_on_disk(self.index@, protect, name) && !self.ledger@.loose.contains(
                    name,
                ) implies {
                let standing = crate::evict::standing(name, self.index@[name]);
                &&& old(self).disk_policy@.contains(standing)
                &&& crate::evict::is_eligible(self.index@, protect, Wanted::DiskLeaf, standing)
            } by {
                assert(self.index@.dom().contains(name));
            }
            let open = match chosen {
                Some((victim, _)) => self.ledger@.loose.insert(victim@),
                None => self.ledger@.loose,
            };
            assert forall|name: u128| #[trigger]
                self.index@.dom().contains(name) && is_due(
                        self.index@,
                        open,
                        self.ledger@.parked,
                        name,
                    ) implies {
                if self.index@[name].place is Ram {
                    self.ram_policy@.contains(crate::evict::standing(name, self.index@[name]))
                } else {
                    self.disk_policy@.contains(crate::evict::standing(name, self.index@[name]))
                }
            } by {
                assert(crate::evict::is_fresh(
                    self.index@,
                    crate::evict::standing(name, self.index@[name]),
                ));
            }
        }
        match chosen {
            None => None,
            Some((victim, priority)) => {
                self.disk_policy.note_eviction(priority);
                proof {
                    assert(crate::ledger::disk_map(self.index@).dom().contains(victim@));
                }
                self.remove_block(victim);
                Some(victim)
            },
        }
    }

    /// Claim a slot on disk and hold it in reserve, dropping a block for it
    /// where the disk is full.
    fn hold_disk_slot(&mut self, protect: Option<BlockHash>) -> (held: Option<
        (DiskSlot, Option<BlockHash>),
    >)
        requires
            old(self).wf(),
        ensures
            final(self).wf(),
            old(self).same_fields(final(self)),
            old(self).same_bytes(final(self)),
            final(self).slab.stack() == old(self).slab.stack(),
            final(self).ledger@.ram_held == old(self).ledger@.ram_held,
            final(self).ledger@.loose.subset_of(old(self).ledger@.loose),
            final(self).ledger@.parked.subset_of(old(self).ledger@.parked),
            final(self).index.clock() == old(self).index.clock(),
            final(self).ram_policy.clock() == old(self).ram_policy.clock(),
            final(self).disk_policy.clock() >= old(self).disk_policy.clock(),
            final(self).disk is Some == old(self).disk is Some,
            old(self).disk is Some ==> final(self).disk->0.moved() == old(self).disk->0.moved()
                && final(self).disk->0.slots() == old(self).disk->0.slots(),
            match held {
                Some((slot, gone)) => {
                    &&& old(self).disk is Some
                    &&& !old(self).ledger@.disk_held.contains(slot.number)
                    &&& final(self).ledger@.disk_held == old(self).ledger@.disk_held.insert(
                        slot.number,
                    )
                    &&& gone is None == (old(self).disk->0.stack().len() > 0)
                    &&& match gone {
                        None => {
                            &&& final(self).index == old(self).index
                            &&& final(self).stats == old(self).stats
                            &&& final(self).disk_policy == old(self).disk_policy
                            &&& slot.number == old(self).disk->0.stack().last()
                            &&& final(self).disk->0.stack()
                                == old(self).disk->0.stack().drop_last()
                        },
                        Some(gone) => {
                            &&& is_next_off_disk(
                                old(self).index@,
                                old(self).ledger@.loose,
                                protect,
                                gone@,
                            )
                            &&& dropped(old(self).index@, final(self).index@, gone@)
                            &&& final(self).disk_policy.clock() == higher(
                                old(self).disk_policy.clock(),
                                old(self).index@[gone@].priority,
                            )
                            &&& final(self).leaves_lean(old(self).index@, gone@)
                            &&& leaves_worth(
                                old(self).costs,
                                final(self).ram_policy.clock(),
                                final(self).disk_policy.clock(),
                                old(self).index@,
                                final(self).index@,
                                gone@,
                            )
                            &&& final(self).index@.dom() == old(self).index@.dom().remove(gone@)
                            &&& final(self).disk->0.stack().len() == 0
                            &&& final(self).stats == (Stats {
                                evicted_blocks: crate::tier::raised(
                                    old(self).stats.evicted_blocks,
                                    1,
                                ),
                                ..old(self).stats
                            })
                        },
                    }
                },
                None => {
                    &&& old(self).disk matches Some(disk) ==> {
                        &&& disk.stack().len() == 0
                        &&& forall|name: u128| #[trigger]
                            is_spare_on_disk(old(self).index@, protect, name)
                                ==> old(self).ledger@.loose.contains(name)
                    }
                    &&& final(self).index == old(self).index
                    &&& final(self).slab == old(self).slab
                    &&& final(self).disk == old(self).disk
                    &&& final(self).ram_policy == old(self).ram_policy
                    &&& final(self).disk_policy.clock() == old(self).disk_policy.clock()
                    &&& final(self).ledger@ == old(self).ledger@
                    &&& final(self).stats == old(self).stats
                },
            },
    {
        let full: bool = match &self.disk {
            None => {
                return None;
            },
            Some(disk) => disk.is_full(),
        };
        let mut gone: Option<BlockHash> = None;
        if full {
            match self.make_disk_room(protect) {
                None => {
                    return None;
                },
                Some(victim) => {
                    gone = Some(victim);
                },
            }
        }
        let ghost before = *self;
        let mut slot: Option<DiskSlot> = None;
        if let Some(disk) = &mut self.disk {
            slot = disk.claim();
        }
        match slot {
            None => None,
            Some(slot) => {
                proof {
                    crate::ledger::lemma_hold(
                        crate::ledger::disk_map(self.index@),
                        self.ledger@.disk_owner,
                        self.ledger@.disk_held,
                        before.disk_taken(),
                        slot.number,
                    );
                    self.ledger@.disk_held = self.ledger@.disk_held.insert(slot.number);
                }
                Some((slot, gone))
            },
        }
    }

    /// Give back a disk slot that was held in reserve.
    fn let_go_of_disk(&mut self, slot: DiskSlot)
        requires
            old(self).wf(),
            old(self).ledger@.disk_held.contains(slot.number),
        ensures
            final(self).wf(),
            old(self).same_fields(final(self)),
            final(self).slab == old(self).slab,
            final(self).index == old(self).index,
            final(self).ram_policy == old(self).ram_policy,
            final(self).disk_policy == old(self).disk_policy,
            final(self).stats == old(self).stats,
            old(self).disk is Some,
            final(self).disk is Some,
            final(self).disk->0.moved() == old(self).disk->0.moved(),
            final(self).disk->0.slots() == old(self).disk->0.slots(),
            final(self).disk->0.stack() == old(self).disk->0.stack().push(slot.number),
            final(self).ledger@ == (Ledger {
                disk_held: old(self).ledger@.disk_held.remove(slot.number),
                ..old(self).ledger@
            }),
    {
        proof {
            assert(self.disk_taken().contains(slot.number));
            crate::ledger::lemma_let_go(
                crate::ledger::disk_map(self.index@),
                self.ledger@.disk_owner,
                self.ledger@.disk_held,
                self.disk_taken(),
                slot.number,
            );
            self.ledger@.disk_held = self.ledger@.disk_held.remove(slot.number);
        }
        if let Some(disk) = &mut self.disk {
            disk.free(slot);
        }
    }

    /// Reclaim a clean block's RAM slot. Its bytes are already on disk, so
    /// this is bookkeeping, not I/O -- which is the whole point of writeback.
    fn release_clean(&mut self, hash: BlockHash, slot: SlotId, backing: DiskSlot)
        requires
            old(self).sound(),
            old(self).covered(old(self).ledger@.loose.insert(hash@)),
            old(self).index@.dom().contains(hash@),
            old(self).index@[hash@].place == (Place::Ram { slot, backing: Some(backing) }),
        ensures
            final(self).wf(),
            old(self).same_fields(final(self)),
            old(self).same_bytes(final(self)),
            final(self).disk == old(self).disk,
            final(self).index.clock() == old(self).index.clock(),
            final(self).ram_policy.clock() == old(self).ram_policy.clock(),
            final(self).disk_policy.clock() == old(self).disk_policy.clock(),
            pushed_out(old(self).index@, final(self).index@, hash@, backing),
            final(self).is_lean(hash@),
            is_worth(
                old(self).costs,
                old(self).ram_policy.clock(),
                old(self).disk_policy.clock(),
                final(self).index@[hash@],
            ),
            final(self).index@.dom() == old(self).index@.dom(),
            final(self).slab.stack() == old(self).slab.stack().push(slot.number),
            final(self).ledger@.ram_held == old(self).ledger@.ram_held,
            final(self).ledger@.disk_held == old(self).ledger@.disk_held,
            final(self).ledger@.loose == old(self).ledger@.loose.remove(hash@),
            final(self).ledger@.parked == old(self).ledger@.parked.remove(hash@),
            final(self).stats == (Stats {
                demoted_blocks: crate::tier::raised(old(self).stats.demoted_blocks, 1),
                ..old(self).stats
            }),
    {
        let ghost before = *self;
        proof {
            self.slab.lemma_shape();
            crate::ledger::lemma_vacate(
                crate::ledger::ram_map(before.index@),
                self.ledger@.ram_owner,
                self.ledger@.ram_held,
                self.slab.taken(),
                hash@,
            );
            self.ledger@.ram_owner = self.ledger@.ram_owner.remove(slot.number);
        }
        self.slab.free(slot);
        self.index.set_place(hash, Place::Disk(backing));
        self.stats.demoted_blocks = self.stats.demoted_blocks.saturating_add(1);
        proof {
            assert(self.index@.dom() =~= before.index@.dom());
            assert(crate::ledger::ram_map(self.index@) =~= crate::ledger::ram_map(
                before.index@,
            ).remove(hash@));
            assert(crate::ledger::disk_map(self.index@) =~= crate::ledger::disk_map(before.index@));
            let open = self.ledger@.loose.insert(hash@);
            assert forall|name: u128| #[trigger]
                self.index@.dom().contains(name) && is_due(
                        self.index@,
                        open,
                        self.ledger@.parked,
                        name,
                    ) implies {
                if self.index@[name].place is Ram {
                    self.ram_policy@.contains(crate::evict::standing(name, self.index@[name]))
                } else {
                    self.disk_policy@.contains(crate::evict::standing(name, self.index@[name]))
                }
            } by {
                assert(before.index@.dom().contains(name));
            }
            assert(self.copies_agree()) by {
                assert forall|name: u128| #[trigger]
                    self.index@.dom().contains(name) implies match self.index@[name].place {
                    Place::Ram { slot, backing: Some(backing) } => self.slab.bytes_at(slot.number)
                        == self.ledger@.image[backing.number],
                    Place::Ram { backing: None, .. } => true,
                    Place::Disk(slot) => self.ledger@.image[slot.number].len()
                        == self.slab.width(),
                } by {
                    assert(before.index@.dom().contains(name));
                }
            }
        }
        self.reprice(hash);
    }

    /// A demotion that the store is still waiting for.
    pub closed spec fn honors(&self, demotion: Demotion) -> bool {
        let name = demotion.hash@;
        &&& self.disk is Some
        &&& self.index@.dom().contains(name)
        &&& self.index@[name].place == (Place::Ram { slot: demotion.slot, backing: None })
        &&& self.index@[name].pins == 0
        &&& self.slab.bytes_at(demotion.slot.number) == demotion.data@
        &&& demotion.data@.len() == self.slab.width()
        &&& self.ledger@.disk_held.contains(demotion.disk_slot.number)
        &&& demotion.leaf ==> self.index@[name].children == 0
    }

    /// Free one slot, or say why not.
    ///
    /// `protect` is excluded from selection. A parent is a leaf until the
    /// block we are admitting lands, which makes it the most attractive
    /// victim in the store -- and evicting it would orphan the very block we
    /// came to insert.
    fn make_room(&mut self, protect: Option<BlockHash>) -> (room: Room)
        requires
            old(self).wf(),
        ensures
            final(self).wf(),
            old(self).same_fields(final(self)),
            old(self).same_bytes(final(self)),
            final(self).ledger@.ram_held == old(self).ledger@.ram_held,
            final(self).index.clock() == old(self).index.clock(),
            final(self).ram_policy.clock() >= old(self).ram_policy.clock(),
            final(self).disk_policy.clock() >= old(self).disk_policy.clock(),
            final(self).disk is Some == old(self).disk is Some,
            old(self).disk is Some ==> final(self).disk->0.moved() == old(self).disk->0.moved()
                && final(self).disk->0.slots() == old(self).disk->0.slots(),
            match room {
                Room::Freed(victim) => {
                    let entry = old(self).index@[victim@];
                    &&& exists|passed: Set<u128>| #[trigger]
                        old(self).chooses(passed, protect, victim@)
                            && final(self).ledger@.parked.subset_of(passed)
                    &&& entry.place.copy() is None ==> old(self).will_not_demote(protect, victim@)
                    &&& final(self).ledger@.disk_held == old(self).ledger@.disk_held
                    &&& final(self).ledger@.loose.subset_of(old(self).ledger@.loose)
                    &&& final(self).slab.stack().len() == old(self).slab.stack().len() + 1
                    &&& final(self).ram_policy.clock() == higher(
                        old(self).ram_policy.clock(),
                        entry.priority,
                    )
                    &&& final(self).disk_policy.clock() == old(self).disk_policy.clock()
                    &&& match entry.place.copy() {
                        Some(copy) => {
                            &&& pushed_out(old(self).index@, final(self).index@, victim@, copy)
                            &&& final(self).is_lean(victim@)
                            &&& is_worth(
                                old(self).costs,
                                final(self).ram_policy.clock(),
                                final(self).disk_policy.clock(),
                                final(self).index@[victim@],
                            )
                            &&& final(self).index@.dom() == old(self).index@.dom()
                            &&& final(self).stats == (Stats {
                                demoted_blocks: crate::tier::raised(
                                    old(self).stats.demoted_blocks,
                                    1,
                                ),
                                ..old(self).stats
                            })
                        },
                        None => {
                            &&& entry.children == 0
                            &&& dropped(old(self).index@, final(self).index@, victim@)
                            &&& final(self).leaves_lean(old(self).index@, victim@)
                            &&& leaves_worth(
                                old(self).costs,
                                final(self).ram_policy.clock(),
                                final(self).disk_policy.clock(),
                                old(self).index@,
                                final(self).index@,
                                victim@,
                            )
                            &&& final(self).index@.dom() == old(self).index@.dom().remove(victim@)
                            &&& final(self).stats == (Stats {
                                evicted_blocks: crate::tier::raised(
                                    old(self).stats.evicted_blocks,
                                    1,
                                ),
                                ..old(self).stats
                            })
                        },
                    }
                },
                Room::Demote(demotion) => {
                    let name = demotion.name();
                    &&& exists|passed: Set<u128>| #[trigger]
                        old(self).chooses(passed, protect, name)
                            && final(self).ledger@.parked.subset_of(
                            if demotion.is_leaf() {
                                passed
                            } else {
                                passed.insert(name)
                            },
                        )
                    &&& final(self).honors(demotion)
                    &&& crate::evict::judged(
                        old(self).costs,
                        old(self).index@[name].depth_tokens,
                        true,
                    )
                    &&& demotion.price() == old(self).index@[name].priority
                    &&& demotion.is_leaf() == (old(self).index@[name].children == 0)
                    &&& !old(self).ledger@.disk_held.contains(demotion.target().number)
                    &&& final(self).ledger@.disk_held == old(self).ledger@.disk_held.insert(
                        demotion.target().number,
                    )
                    &&& final(self).ledger@.loose.subset_of(
                        if demotion.is_leaf() {
                            old(self).ledger@.loose.insert(name)
                        } else {
                            old(self).ledger@.loose
                        },
                    )
                    &&& final(self).slab.stack() == old(self).slab.stack()
                    &&& final(self).ram_policy.clock() == old(self).ram_policy.clock()
                    &&& if old(self).disk->0.stack().len() > 0 {
                        &&& final(self).index@ == old(self).index@
                        &&& final(self).stats == old(self).stats
                        &&& final(self).disk_policy.clock() == old(self).disk_policy.clock()
                    } else {
                        &&& exists|gone: u128| #[trigger]
                            is_next_off_disk(
                                old(self).index@,
                                old(self).ledger@.loose,
                                protect,
                                gone,
                            ) && dropped(old(self).index@, final(self).index@, gone)
                                && final(self).index@.dom() == old(self).index@.dom().remove(gone)
                                && final(self).disk_policy.clock() == higher(
                                old(self).disk_policy.clock(),
                                old(self).index@[gone].priority,
                            ) && final(self).leaves_lean(old(self).index@, gone) && leaves_worth(
                                old(self).costs,
                                final(self).ram_policy.clock(),
                                final(self).disk_policy.clock(),
                                old(self).index@,
                                final(self).index@,
                                gone,
                            )
                        &&& final(self).stats == (Stats {
                            evicted_blocks: crate::tier::raised(
                                old(self).stats.evicted_blocks,
                                1,
                            ),
                            ..old(self).stats
                        })
                    }
                },
                Room::Refused => {
                    &&& old(self).skips(final(self).ledger@.parked, protect)
                    &&& forall|name: u128| #[trigger]
                        is_idle(old(self).index@, protect, name) ==> !is_due(
                            old(self).index@,
                            old(self).ledger@.loose,
                            final(self).ledger@.parked,
                            name,
                        )
                    &&& final(self).index@ == old(self).index@
                    &&& final(self).slab.stack() == old(self).slab.stack()
                    &&& final(self).disk == old(self).disk
                    &&& final(self).ram_policy.clock() == old(self).ram_policy.clock()
                    &&& final(self).disk_policy.clock() == old(self).disk_policy.clock()
                    &&& final(self).ledger@ == (Ledger {
                        parked: final(self).ledger@.parked,
                        ..old(self).ledger@
                    })
                    &&& final(self).stats == old(self).stats
                },
            },
    {
        // Always admit once a victim exists, even when the newcomer models
        // as cheaper. Refusing on cost ossifies the cache: new blocks start
        // shallow and lose to the deep tails already resident, so nothing is
        // admitted, nothing evicted, and the clock never rises to break the
        // tie.
        loop
            invariant
                self.wf(),
                old(self).same_fields(self),
                self.slab == old(self).slab,
                self.index == old(self).index,
                self.disk == old(self).disk,
                self.disk_policy.clock() == old(self).disk_policy.clock(),
                self.ledger@ == (Ledger { parked: self.ledger@.parked, ..old(self).ledger@ }),
                old(self).skips(self.ledger@.parked, protect),
                self.stats == old(self).stats,
                self.ram_policy.clock() == old(self).ram_policy.clock(),
            decreases self.ram_policy@.len(),
        {
            let ghost before = *self;
            let chosen = self.ram_policy.select_victim(&self.index, protect, Wanted::InRam);
            proof {
                assert forall|name: u128| #[trigger]
                    is_idle(self.index@, protect, name) && is_due(
                        self.index@,
                        self.ledger@.loose,
                        self.ledger@.parked,
                        name,
                    ) implies {
                    let standing = crate::evict::standing(name, self.index@[name]);
                    &&& before.ram_policy@.contains(standing)
                    &&& crate::evict::is_eligible(self.index@, protect, Wanted::InRam, standing)
                } by {
                    assert(self.index@.dom().contains(name));
                }
                let open = match chosen {
                    Some((victim, _)) => self.ledger@.loose.insert(victim@),
                    None => self.ledger@.loose,
                };
                assert forall|name: u128| #[trigger]
                    self.index@.dom().contains(name) && is_due(
                            self.index@,
                            open,
                            self.ledger@.parked,
                            name,
                        ) implies {
                    if self.index@[name].place is Ram {
                        self.ram_policy@.contains(crate::evict::standing(name, self.index@[name]))
                    } else {
                        self.disk_policy@.contains(crate::evict::standing(name, self.index@[name]))
                    }
                } by {
                    assert(crate::evict::is_fresh(
                        self.index@,
                        crate::evict::standing(name, self.index@[name]),
                    ));
                }
                assert(self.covered(open));
            }
            let (victim, priority): (BlockHash, u64) = match chosen {
                None => {
                    return Room::Refused;
                },
                Some(chosen) => chosen,
            };
            let ghost passed = self.ledger@.parked;
            assert(old(self).chooses(passed, protect, victim@));
            let entry: Entry = match self.index.get(victim) {
                None => {
                    return Room::Refused;
                },
                Some(entry) => *entry,
            };
            let slot: SlotId = match entry.place {
                Place::Disk(_) => {
                    return Room::Refused;
                },
                Place::Ram { slot, backing: Some(backing) } => {
                    // A clean block costs nothing to give up: its bytes are
                    // already on disk, so we just drop the RAM slot.
                    self.release_clean(victim, slot, backing);
                    self.ram_policy.note_eviction(priority);
                    return Room::Freed(victim);
                },
                Place::Ram { slot, backing: None } => slot,
            };
            // Otherwise somebody has to pay for the write. Demotion beats
            // dropping whenever a read back is cheaper than a rebuild, and
            // unlike dropping it works on any block: a demoted parent is
            // still there for its children.
            proof {
                self.slab.lemma_shape();
                crate::ledger::lemma_slots_are_exclusive(
                    crate::ledger::ram_map(self.index@),
                    self.ledger@.ram_owner,
                    self.ledger@.ram_held,
                    self.slab.taken(),
                    victim@,
                    victim@,
                );
                if entry.children == 0 {
                    self.ledger@.loose = self.ledger@.loose.insert(victim@);
                } else {
                    self.ledger@.parked = self.ledger@.parked.insert(victim@);
                }
            }
            let ghost marked = *self;
            if self.disk.is_some() && self.costs.worth_demoting(entry.depth_tokens) {
                if let Some((disk_slot, gone)) = self.hold_disk_slot(protect) {
                    let data = vstd::slice::slice_to_vec(self.slab.block(slot));
                    proof {
                        if let Some(gone) = gone {
                            assert(is_next_off_disk(
                                old(self).index@,
                                old(self).ledger@.loose,
                                protect,
                                gone@,
                            ));
                            old(self).index.lemma_parents_are_no_leaves(gone@);
                        }
                    }
                    return Room::Demote(
                        Demotion {
                            hash: victim,
                            slot,
                            disk_slot,
                            priority,
                            leaf: entry.children == 0,
                            data,
                        },
                    );
                }
            }
            if entry.children == 0 {
                self.ram_policy.note_eviction(priority);
                self.remove_block(victim);
                return Room::Freed(victim);
            }
            // An internal block we could not demote is not removable either.
            // It leaves the heap until its next access or its last child goes.
        }
    }

    /// Where the write of a demotion succeeded the block is on disk and its
    /// memory is free. Where it failed a leaf is dropped, and any other block
    /// stays as it was.
    pub fn finish_demotion(&mut self, demotion: Demotion, written: bool)
        requires
            old(self).wf(),
            old(self).honors(demotion),
        ensures
            final(self).wf(),
            old(self).same_setup(final(self)),
            old(self).keeps_pinned(final(self)),
            forall|name: u128| #[trigger]
                final(self).entries().dom().contains(name) ==> old(self).carries(final(self), name),
            final(self).clock() == old(self).clock(),
            final(self).disk_inflation() == old(self).disk_inflation(),
            final(self).reserved() == old(self).reserved(),
            final(self).reserved_on_disk() == old(self).reserved_on_disk().remove(
                demotion.target().number,
            ),
            final(self).withheld().subset_of(old(self).withheld()),
            final(self).passed_over().subset_of(old(self).passed_over()),
            demotion.is_leaf() ==> !final(self).withheld().contains(demotion.name()),
            if written {
                &&& pushed_out(
                    old(self).entries(),
                    final(self).entries(),
                    demotion.name(),
                    demotion.target(),
                )
                &&& crate::evict::priced(
                    old(self).pricing(),
                    old(self).disk_inflation(),
                    old(self).entries()[demotion.name()].depth_tokens,
                    final(self).entries()[demotion.name()].priority,
                )
                &&& final(self).is_lean(demotion.name())
                &&& final(self).ram_inflation() == higher(
                    old(self).ram_inflation(),
                    demotion.price(),
                )
                &&& final(self).free_slots() == old(self).free_slots() + 1
                &&& final(self).free_disk_slots() == old(self).free_disk_slots()
                &&& final(self).moved() == Some(
                    DiskStats {
                        writes: crate::tier::raised(old(self).moved()->0.writes, 1),
                        bytes_written: crate::tier::raised(
                            old(self).moved()->0.bytes_written,
                            old(self).shape().size(),
                        ),
                        ..old(self).moved()->0
                    },
                )
                &&& final(self).counters() == (Stats {
                    demoted_blocks: crate::tier::raised(old(self).counters().demoted_blocks, 1),
                    blocking_demotions: crate::tier::raised(
                        old(self).counters().blocking_demotions,
                        1,
                    ),
                    ..old(self).counters()
                })
            } else if demotion.is_leaf() {
                &&& dropped(old(self).entries(), final(self).entries(), demotion.name())
                &&& final(self).leaves_lean(old(self).entries(), demotion.name())
                &&& leaves_worth(
                    old(self).pricing(),
                    final(self).ram_inflation(),
                    final(self).disk_inflation(),
                    old(self).entries(),
                    final(self).entries(),
                    demotion.name(),
                )
                &&& !final(self).entries().dom().contains(demotion.name())
                &&& final(self).ram_inflation() == higher(
                    old(self).ram_inflation(),
                    demotion.price(),
                )
                &&& final(self).free_slots() == old(self).free_slots() + 1
                &&& final(self).free_disk_slots() == old(self).free_disk_slots() + 1
                &&& final(self).moved() == old(self).moved()
                &&& final(self).counters() == (Stats {
                    evicted_blocks: crate::tier::raised(old(self).counters().evicted_blocks, 1),
                    ..old(self).counters()
                })
            } else {
                &&& final(self).entries() == old(self).entries()
                &&& final(self).ram_inflation() == old(self).ram_inflation()
                &&& final(self).free_slots() == old(self).free_slots()
                &&& final(self).free_disk_slots() == old(self).free_disk_slots() + 1
                &&& final(self).moved() == old(self).moved()
                &&& final(self).counters() == old(self).counters()
            },
    {
        let hash = demotion.hash;
        let slot = demotion.slot;
        let target = demotion.disk_slot;
        if !written {
            self.let_go_of_disk(target);
            if demotion.leaf {
                self.ram_policy.note_eviction(demotion.priority);
                self.remove_block(hash);
            }
            return ;
        }
        let ghost before = *self;
        proof {
            crate::ledger::lemma_vacate(
                crate::ledger::ram_map(before.index@),
                self.ledger@.ram_owner,
                self.ledger@.ram_held,
                self.slab.taken(),
                hash@,
            );
            crate::ledger::lemma_settle(
                crate::ledger::disk_map(before.index@),
                self.ledger@.disk_owner,
                self.ledger@.disk_held,
                self.disk_taken(),
                hash@,
                target.number,
            );
            self.ledger@.ram_owner = self.ledger@.ram_owner.remove(slot.number);
            self.ledger@.disk_owner = self.ledger@.disk_owner.insert(target.number, hash@);
            self.ledger@.disk_held = self.ledger@.disk_held.remove(target.number);
            self.ledger@.image = self.ledger@.image.insert(target.number, demotion.data@);
        }
        self.slab.free(slot);
        self.index.set_place(hash, Place::Disk(target));
        self.stats.demoted_blocks = self.stats.demoted_blocks.saturating_add(1);
        self.stats.blocking_demotions = self.stats.blocking_demotions.saturating_add(1);
        let bytes: usize = self.slab.block_bytes();
        if let Some(disk) = &mut self.disk {
            disk.note_writes(1, bytes as u64);
        }
        self.ram_policy.note_eviction(demotion.priority);
        proof {
            assert(self.index@.dom() =~= before.index@.dom());
            assert(crate::ledger::ram_map(self.index@) =~= crate::ledger::ram_map(
                before.index@,
            ).remove(hash@));
            assert(crate::ledger::disk_map(self.index@) =~= crate::ledger::disk_map(
                before.index@,
            ).insert(hash@, target.number));
            let open = self.ledger@.loose.insert(hash@);
            assert forall|name: u128| #[trigger]
                self.index@.dom().contains(name) && is_due(
                        self.index@,
                        open,
                        self.ledger@.parked,
                        name,
                    ) implies {
                if self.index@[name].place is Ram {
                    self.ram_policy@.contains(crate::evict::standing(name, self.index@[name]))
                } else {
                    self.disk_policy@.contains(crate::evict::standing(name, self.index@[name]))
                }
            } by {
                assert(before.index@.dom().contains(name));
            }
            assert forall|name: u128| #[trigger]
                self.index@.dom().contains(name) implies match self.index@[name].place {
                Place::Ram { slot, backing: Some(backing) } => self.slab.bytes_at(slot.number)
                    == self.ledger@.image[backing.number],
                Place::Ram { backing: None, .. } => true,
                Place::Disk(slot) => self.ledger@.image[slot.number].len() == self.slab.width(),
            } by {
                assert(before.index@.dom().contains(name));
                assert(before.index@[name].place.copy() is Some
                    ==> crate::ledger::disk_map(before.index@).dom().contains(name));
            }
        }
        let ghost moved = *self;
        self.reprice(hash);
        proof {
            assert forall|name: u128| #[trigger]
                self.index@.dom().contains(name) implies before.carries(self, name) by {
                assert(before.index@.dom().contains(name));
                assert(before.index@[name].place.copy() is Some
                    ==> crate::ledger::disk_map(before.index@).dom().contains(name));
            }
        }
    }

    /// A new block takes the slot held for it.
    fn land(
        &mut self,
        hash: BlockHash,
        parent: Option<BlockHash>,
        slot: SlotId,
        depth_tokens: u32,
        data: &[u8],
    )
        requires
            old(self).wf(),
            old(self).ledger@.ram_held.contains(slot.number),
            !old(self).index@.dom().contains(hash@),
            parent matches Some(parent) ==> old(self).index@.dom().contains(parent@),
            data@.len() == old(self).slab.width(),
        ensures
            final(self).wf(),
            old(self).same_fields(final(self)),
            final(self).slab.slots() == old(self).slab.slots(),
            final(self).slab.stack() == old(self).slab.stack(),
            final(self).disk == old(self).disk,
            final(self).stats == old(self).stats,
            final(self).index.clock() == crate::index::tick(old(self).index.clock()),
            final(self).ram_policy.clock() == old(self).ram_policy.clock(),
            final(self).disk_policy == old(self).disk_policy,
            final(self).ledger@.ram_held == old(self).ledger@.ram_held.remove(slot.number),
            final(self).ledger@.disk_held == old(self).ledger@.disk_held,
            final(self).ledger@.loose == old(self).ledger@.loose.remove(hash@),
            final(self).ledger@.parked == old(self).ledger@.parked.remove(hash@),
            landed(
                old(self).index@,
                final(self).index@,
                hash@,
                parent,
                depth_tokens,
                final(self).index.clock(),
            ),
            final(self).index@.dom() == old(self).index@.dom().insert(hash@),
            crate::evict::priced(
                old(self).costs,
                old(self).ram_policy.clock(),
                depth_tokens,
                final(self).index@[hash@].priority,
            ),
            final(self).is_lean(hash@),
            final(self).contents(hash@) == data@,
            forall|name: u128| #[trigger]
                old(self).index@.dom().contains(name) ==> {
                    &&& old(self).carries(final(self), name)
                    &&& final(self).index@[name].place == old(self).index@[name].place
                },
    {
        let ghost before = *self;
        proof {
            self.slab.lemma_shape();
            crate::ledger::lemma_settle(
                crate::ledger::ram_map(before.index@),
                self.ledger@.ram_owner,
                self.ledger@.ram_held,
                self.slab.taken(),
                hash@,
                slot.number,
            );
            self.ledger@.ram_owner = self.ledger@.ram_owner.insert(slot.number, hash@);
            self.ledger@.ram_held = self.ledger@.ram_held.remove(slot.number);
        }
        self.slab.write(slot, data);
        let _ = self.index.insert(hash, parent, Place::dirty(slot), depth_tokens);
        proof {
            assert(self.index@.dom() =~= before.index@.dom().insert(hash@));
            assert(crate::ledger::ram_map(self.index@) =~= crate::ledger::ram_map(
                before.index@,
            ).insert(hash@, slot.number));
            assert(crate::ledger::disk_map(self.index@) =~= crate::ledger::disk_map(before.index@));
            let open = self.ledger@.loose.insert(hash@);
            assert forall|name: u128| #[trigger]
                self.index@.dom().contains(name) && is_due(
                        self.index@,
                        open,
                        self.ledger@.parked,
                        name,
                    ) implies {
                if self.index@[name].place is Ram {
                    self.ram_policy@.contains(crate::evict::standing(name, self.index@[name]))
                } else {
                    self.disk_policy@.contains(crate::evict::standing(name, self.index@[name]))
                }
            } by {
                assert(before.index@.dom().contains(name));
            }
            assert forall|name: u128| #[trigger] before.index@.dom().contains(name) implies {
                &&& before.index@[name].place matches Place::Ram { slot: taken, .. } ==> taken.number
                    != slot.number && taken.number < self.slab.slots()
            } by {
                assert(before.index@[name].place is Ram ==> crate::ledger::ram_map(
                    before.index@,
                ).dom().contains(name));
            }
            assert forall|name: u128| #[trigger]
                self.index@.dom().contains(name) implies match self.index@[name].place {
                Place::Ram { slot, backing: Some(backing) } => self.slab.bytes_at(slot.number)
                    == self.ledger@.image[backing.number],
                Place::Ram { backing: None, .. } => true,
                Place::Disk(slot) => self.ledger@.image[slot.number].len() == self.slab.width(),
            } by {
                if name != hash@ {
                    assert(before.index@.dom().contains(name));
                }
            }
        }
        self.reprice(hash);
    }

    /// A block may be admitted: it is not here yet, and what it hangs below
    /// is.
    pub open spec fn wants(&self, hash: BlockHash, parent: Option<BlockHash>) -> bool {
        &&& !self.entries().dom().contains(hash@)
        &&& parent matches Some(parent) ==> self.entries().dom().contains(parent@)
    }

    /// A block without a copy on disk does not get one: there is no disk, or
    /// the block is not worth a slot there, or none is free and none can be
    /// freed.
    pub open spec fn will_not_demote(&self, protect: Option<BlockHash>, name: u128) -> bool {
        ||| !self.tiered()
        ||| crate::evict::judged(self.pricing(), self.entries()[name].depth_tokens, false)
        ||| {
            &&& self.free_disk_slots() == 0
            &&& forall|other: u128| #[trigger]
                is_spare_on_disk(self.entries(), protect, other) ==> self.withheld().contains(
                    other,
                )
        }
    }

    /// `passed` is what a search for memory has passed over by now: blocks
    /// that others hang below, and that will not be demoted.
    pub open spec fn skips(&self, passed: Set<u128>, protect: Option<BlockHash>) -> bool {
        &&& self.passed_over().subset_of(passed)
        &&& forall|name: u128| #[trigger]
            passed.contains(name) && !self.passed_over().contains(name) ==> {
                &&& is_idle(self.entries(), protect, name)
                &&& self.entries()[name].children > 0
                &&& self.entries()[name].place.copy() is None
                &&& self.will_not_demote(protect, name)
            }
    }

    /// With `passed` passed over, `name` is what a search for memory comes to.
    pub open spec fn chooses(
        &self,
        passed: Set<u128>,
        protect: Option<BlockHash>,
        name: u128,
    ) -> bool {
        &&& self.skips(passed, protect)
        &&& is_next_out(self.entries(), self.withheld(), passed, protect, name)
    }

    /// A search for memory comes to `victim`, which gives way: its copy on
    /// disk remains if it has one, and it is dropped only if it will not be
    /// demoted.
    pub open spec fn gives_way(
        &self,
        between: Map<u128, Entry>,
        passed: Set<u128>,
        protect: Option<BlockHash>,
        victim: u128,
    ) -> bool {
        let ram = higher(self.ram_inflation(), self.entries()[victim].priority);
        &&& self.chooses(passed, protect, victim)
        &&& gave_way(self.entries(), between, victim)
        &&& if self.entries()[victim].place.copy() is Some {
            is_worth(self.pricing(), ram, self.disk_inflation(), between[victim])
        } else {
            &&& self.will_not_demote(protect, victim)
            &&& leaves_worth(
                self.pricing(),
                ram,
                self.disk_inflation(),
                self.entries(),
                between,
                victim,
            )
        }
    }

    /// What lies between asking for memory and having it: nothing if there
    /// was some, else one block that gave way, whose priority the clock has
    /// risen to.
    pub open spec fn made_way(
        &self,
        after: &Self,
        between: Map<u128, Entry>,
        passed: Set<u128>,
        protect: Option<BlockHash>,
    ) -> bool {
        &&& after.disk_inflation() == self.disk_inflation()
        &&& if self.free_slots() > 0 {
            &&& between == self.entries()
            &&& passed == self.passed_over()
            &&& after.ram_inflation() == self.ram_inflation()
            &&& after.counters().evicted_blocks == self.counters().evicted_blocks
            &&& after.counters().demoted_blocks == self.counters().demoted_blocks
        } else {
            exists|victim: u128|
                {
                    let clean = self.entries()[victim].place.copy() is Some;
                    &&& #[trigger] self.gives_way(between, passed, protect, victim)
                    &&& if clean {
                        after.is_lean(victim)
                    } else {
                        after.leaves_lean(self.entries(), victim)
                    }
                    &&& after.ram_inflation() == higher(
                        self.ram_inflation(),
                        self.entries()[victim].priority,
                    )
                    &&& after.counters().evicted_blocks == crate::tier::raised(
                        self.counters().evicted_blocks,
                        if clean {
                            0
                        } else {
                            1
                        },
                    )
                    &&& after.counters().demoted_blocks == crate::tier::raised(
                        self.counters().demoted_blocks,
                        if clean {
                            1
                        } else {
                            0
                        },
                    )
                }
        }
    }

    /// No memory can be had: every block that could give way is withheld, or
    /// was passed over.
    pub open spec fn has_no_room(&self, passed: Set<u128>, protect: Option<BlockHash>) -> bool {
        &&& self.free_slots() == 0
        &&& self.skips(passed, protect)
        &&& forall|name: u128| #[trigger]
            is_idle(self.entries(), protect, name) ==> !is_due(
                self.entries(),
                self.withheld(),
                passed,
                name,
            )
    }

    /// The demotion that has to happen before there is memory: the next block
    /// out has no copy on disk, and is worth one. Where the disk was full, a
    /// block there was dropped.
    pub open spec fn has_to_demote(
        &self,
        after: &Self,
        protect: Option<BlockHash>,
        demotion: Demotion,
    ) -> bool {
        let name = demotion.name();
        &&& self.tiered()
        &&& self.free_slots() == 0
        &&& after.free_slots() == 0
        &&& exists|passed: Set<u128>| #[trigger]
            self.chooses(passed, protect, name) && after.passed_over().subset_of(
                if demotion.is_leaf() {
                    passed
                } else {
                    passed.insert(name)
                },
            )
        &&& self.entries()[name].place.copy() is None
        &&& crate::evict::judged(self.pricing(), self.entries()[name].depth_tokens, true)
        &&& after.honors(demotion)
        &&& demotion.payload() == self.contents(name)
        &&& demotion.price() == self.entries()[name].priority
        &&& demotion.is_leaf() == (self.entries()[name].children == 0)
        &&& !self.reserved_on_disk().contains(demotion.target().number)
        &&& after.reserved_on_disk() == self.reserved_on_disk().insert(demotion.target().number)
        &&& after.reserved() == self.reserved()
        &&& after.withheld().subset_of(
            if demotion.is_leaf() {
                self.withheld().insert(name)
            } else {
                self.withheld()
            },
        )
        &&& after.moved() == self.moved()
        &&& after.clock() == self.clock()
        &&& after.ram_inflation() == self.ram_inflation()
        &&& if self.free_disk_slots() > 0 {
            &&& after.entries() == self.entries()
            &&& after.counters() == self.counters()
            &&& after.disk_inflation() == self.disk_inflation()
        } else {
            &&& exists|gone: u128| #[trigger]
                is_next_off_disk(self.entries(), self.withheld(), protect, gone) && dropped(
                    self.entries(),
                    after.entries(),
                    gone,
                ) && after.entries().dom() == self.entries().dom().remove(gone)
                    && after.disk_inflation() == higher(
                    self.disk_inflation(),
                    self.entries()[gone].priority,
                ) && after.leaves_lean(self.entries(), gone) && leaves_worth(
                    self.pricing(),
                    self.ram_inflation(),
                    after.disk_inflation(),
                    self.entries(),
                    after.entries(),
                    gone,
                )
            &&& after.counters() == (Stats {
                evicted_blocks: crate::tier::raised(self.counters().evicted_blocks, 1),
                ..self.counters()
            })
        }
    }

    /// Blocks stay what they are while bytes stay where they are.
    proof fn lemma_carried_by_bytes(&self, after: &Self)
        requires
            self.same_bytes(after),
            forall|name: u128| #[trigger]
                after.index@.dom().contains(name) ==> {
                    &&& self.index@.dom().contains(name)
                    &&& after.index@[name].parent == self.index@[name].parent
                    &&& after.index@[name].depth_tokens == self.index@[name].depth_tokens
                    &&& after.index@[name].pins == self.index@[name].pins
                    &&& after.index@[name].place == self.index@[name].place || (
                    self.index@[name].place matches Place::Ram { slot, backing: Some(backing) }
                        && self.slab.bytes_at(slot.number) == self.ledger@.image[backing.number]
                        && after.index@[name].place == Place::Disk(backing))
                },
        ensures
            forall|name: u128| #[trigger]
                after.entries().dom().contains(name) ==> self.carries(after, name),
    {
    }

    /// What is still here once room was made is what it was.
    proof fn lemma_after_room(&self, before: &Self, protect: Option<BlockHash>, room: Room)
        requires
            before.wf(),
            before.same_bytes(self),
            match room {
                Room::Freed(victim) => {
                    &&& before.index@.dom().contains(victim@)
                    &&& before.index@[victim@].pins == 0
                    &&& before.index@[victim@].place is Ram
                    &&& match before.index@[victim@].place.copy() {
                        Some(copy) => pushed_out(before.index@, self.index@, victim@, copy),
                        None => {
                            &&& before.index@[victim@].children == 0
                            &&& dropped(before.index@, self.index@, victim@)
                        },
                    }
                },
                Room::Demote(_) => {
                    ||| self.index@ == before.index@
                    ||| exists|gone: u128| #[trigger]
                        is_next_off_disk(before.index@, before.ledger@.loose, protect, gone)
                            && dropped(before.index@, self.index@, gone)
                },
                Room::Refused => self.index@ == before.index@,
            },
        ensures
            before.keeps_pinned(self),
            forall|name: u128| #[trigger]
                self.entries().dom().contains(name) ==> before.carries(self, name),
    {
        match room {
            Room::Freed(victim) => {
                before.index.lemma_parents_are_no_leaves(victim@);
            },
            Room::Demote(_) => {
                if self.index@ != before.index@ {
                    let gone = choose|gone: u128| #[trigger]
                        is_next_off_disk(before.index@, before.ledger@.loose, protect, gone)
                            && dropped(before.index@, self.index@, gone);
                    before.index.lemma_parents_are_no_leaves(gone);
                }
            },
            Room::Refused => {},
        }
        before.lemma_carried_by_bytes(self);
    }

    /// What admitting one block does.
    pub open spec fn admits(
        &self,
        after: &Self,
        hash: BlockHash,
        parent: Option<BlockHash>,
        depth_tokens: u32,
        data: Seq<u8>,
        step: AdmitStep,
    ) -> bool {
        &&& self.same_setup(after)
        &&& self.keeps_pinned(after)
        &&& forall|name: u128| #[trigger]
            after.entries().dom().contains(name) ==> name == hash@ && step == AdmitStep::Done(
                Admit::Inserted,
            ) || self.carries(after, name)
        &&& after.ram_inflation() >= self.ram_inflation()
        &&& after.disk_inflation() >= self.disk_inflation()
        &&& match step {
            AdmitStep::Done(Admit::AlreadyPresent) => {
                &&& self.entries().dom().contains(hash@)
                &&& self.same_state(after)
                &&& after.passed_over() == self.passed_over()
                &&& after.counters() == (Stats {
                    deduped_blocks: crate::tier::raised(self.counters().deduped_blocks, 1),
                    ..self.counters()
                })
            },
            AdmitStep::Done(Admit::OrphanParent) => {
                &&& !self.entries().dom().contains(hash@)
                &&& parent matches Some(parent) && !self.entries().dom().contains(parent@)
                &&& self.same_state(after)
                &&& after.passed_over() == self.passed_over()
                &&& after.counters() == self.counters()
            },
            AdmitStep::Done(Admit::OutOfSpace) => {
                &&& self.wants(hash, parent)
                &&& self.has_no_room(after.passed_over(), parent)
                &&& self.same_state(after)
                &&& after.counters() == (Stats {
                    rejected_blocks: crate::tier::raised(self.counters().rejected_blocks, 1),
                    ..self.counters()
                })
            },
            AdmitStep::Done(Admit::Inserted) => {
                &&& self.wants(hash, parent)
                &&& after.entries().dom().contains(hash@)
                &&& after.contents(hash@) == data
                &&& after.clock() == crate::index::tick(self.clock())
                &&& exists|between: Map<u128, Entry>, passed: Set<u128>| #[trigger]
                    self.made_way(after, between, passed, parent) && landed(
                        between,
                        after.entries(),
                        hash@,
                        parent,
                        depth_tokens,
                        after.clock(),
                    ) && after.passed_over().subset_of(passed)
                &&& crate::evict::priced(
                    self.pricing(),
                    after.ram_inflation(),
                    depth_tokens,
                    after.entries()[hash@].priority,
                )
                &&& after.is_lean(hash@)
                &&& after.free_slots() == (if self.free_slots() > 0 {
                    (self.free_slots() - 1) as nat
                } else {
                    0
                })
                &&& after.moved() == self.moved()
                &&& after.reserved() == self.reserved()
                &&& after.reserved_on_disk() == self.reserved_on_disk()
                &&& after.withheld().subset_of(self.withheld())
                &&& after.counters() == (Stats {
                    inserted_blocks: crate::tier::raised(self.counters().inserted_blocks, 1),
                    bytes_admitted: crate::tier::raised(
                        self.counters().bytes_admitted,
                        data.len() as int,
                    ),
                    evicted_blocks: after.counters().evicted_blocks,
                    demoted_blocks: after.counters().demoted_blocks,
                    ..self.counters()
                })
                &&& self.free_slots() > 0 ==> after.entries().dom() == self.entries().dom().insert(
                    hash@,
                )
            },
            AdmitStep::Demote(demotion) => {
                &&& self.wants(hash, parent)
                &&& self.has_to_demote(after, parent, demotion)
                &&& after.wants(hash, parent)
            },
        }
    }

    /// Admit one block. `parent` is the preceding block's name, or `None`
    /// for the first block of a sequence.
    #[verifier::rlimit(40)]
    #[verifier::spinoff_prover]
    pub fn admit_block(
        &mut self,
        hash: BlockHash,
        parent: Option<BlockHash>,
        depth_tokens: u32,
        data: &[u8],
    ) -> (step: AdmitStep)
        requires
            old(self).wf(),
            data@.len() == old(self).shape().size(),
        ensures
            final(self).wf(),
            old(self).admits(final(self), hash, parent, depth_tokens, data@, step),
    {
        if self.index.contains(hash) {
            self.stats.deduped_blocks = self.stats.deduped_blocks.saturating_add(1);
            return AdmitStep::Done(Admit::AlreadyPresent);
        }
        if let Some(parent) = parent {
            if !self.index.contains(parent) {
                return AdmitStep::Done(Admit::OrphanParent);
            }
        }
        // Allocate after the checks so a rejected admit has nothing to undo.

        let mut held: Option<SlotId> = self.hold_slot();
        let ghost mut between = self.index@;
        let ghost mut passed = self.ledger@.parked;
        let ghost mut gone: u128 = 0;
        if held.is_none() {
            let ghost full = *self;
            let room = self.make_room(parent);
            proof {
                self.lemma_after_room(old(self), parent, room);
            }
            match room {
                Room::Freed(victim) => {
                    proof {
                        between = self.index@;
                        gone = victim@;
                        passed = choose|passed: Set<u128>| #[trigger]
                            full.chooses(passed, parent, victim@)
                                && self.ledger@.parked.subset_of(passed);
                        assert(old(self).chooses(passed, parent, victim@));
                        assert(old(self).gives_way(between, passed, parent, victim@));
                    }
                },
                Room::Demote(demotion) => {
                    proof {
                        let passed = choose|passed: Set<u128>| #[trigger]
                            full.chooses(passed, parent, demotion.name())
                                && self.ledger@.parked.subset_of(
                                if demotion.is_leaf() {
                                    passed
                                } else {
                                    passed.insert(demotion.name())
                                },
                            );
                        assert(old(self).chooses(passed, parent, demotion.name()));
                    }
                    return AdmitStep::Demote(demotion);
                },
                Room::Refused => {
                    self.stats.rejected_blocks = self.stats.rejected_blocks.saturating_add(1);
                    return AdmitStep::Done(Admit::OutOfSpace);
                },
            }
            held = self.hold_slot();
        }
        let slot: SlotId = match held {
            Some(slot) => slot,
            None => {
                return AdmitStep::Done(Admit::OutOfSpace);
            },
        };
        let ghost ready = *self;
        self.land(hash, parent, slot, depth_tokens, data);
        self.stats.inserted_blocks = self.stats.inserted_blocks.saturating_add(1);
        self.stats.bytes_admitted = self.stats.bytes_admitted.saturating_add(data.len() as u64);
        proof {
            // One resident block more makes no tier more crowded.
            assert(self.index@.len() == ready.index@.len() + 1) by {
                assert(self.index@.dom() =~= ready.index@.dom().insert(hash@));
            }
            if old(self).free_slots() == 0 {
                let before = old(self).index@;
                assert(old(self).gives_way(between, passed, parent, gone));
                if before[gone].place.copy() is Some {
                    assert(ready.index@.dom().contains(gone));
                } else if let Some(above) = before[gone].parent {
                    old(self).index.lemma_parents_are_no_leaves(gone);
                    assert(ready.index@.dom().contains(above@));
                    assert(self.index@[above@].children == 0 ==> ready.index@[above@].children
                        == 0);
                    assert(self.leaves_lean(before, gone));
                }
            }
            assert(old(self).made_way(self, between, passed, parent));
            assert(self.ledger@.ram_held =~= old(self).ledger@.ram_held);
            assert forall|name: u128| #[trigger]
                self.index@.dom().contains(name) && name != hash@ implies old(self).carries(
                self,
                name,
            ) by {
                assert(ready.index@.dom().contains(name));
                assert(ready.carries(self, name));
            }
        }
        AdmitStep::Done(Admit::Inserted)
    }

    /// How an entry stands after the first `matched` of `hashes` were hit and
    /// repriced: those were used just now and priced by it, the others are as
    /// they were.
    pub open spec fn refreshed(
        &self,
        after: &Self,
        hashes: Seq<BlockHash>,
        matched: nat,
        name: u128,
    ) -> bool {
        let hit = crate::index::after_hits(self.entries(), self.clock(), hashes, matched)[name];
        let now = after.entries()[name];
        if exists|i: int| 0 <= i < matched && (#[trigger] hashes[i])@ == name {
            &&& now == (Entry {
                priority: now.priority,
                priority_access: hit.last_access,
                ..hit
            })
            &&& crate::evict::priced(
                self.pricing(),
                if hit.place is Ram {
                    self.ram_inflation()
                } else {
                    self.disk_inflation()
                },
                hit.depth_tokens,
                now.priority,
            )
        } else {
            now == self.entries()[name]
        }
    }

    /// What probing for `hashes` does, of which the first `matched` are
    /// resident: those were used just now, and the probe is counted.
    pub open spec fn probes(&self, after: &Self, hashes: Seq<BlockHash>, matched: nat) -> bool {
        &&& self.same_setup(after)
        &&& crate::index::is_resident_run(self.entries(), hashes, matched)
        &&& after.entries().dom() == self.entries().dom()
        &&& forall|name: u128| #[trigger]
            self.entries().dom().contains(name) ==> {
                &&& self.refreshed(after, hashes, matched, name)
                &&& self.carries(after, name)
                &&& after.entries()[name].place == self.entries()[name].place
                &&& after.entries()[name].children == self.entries()[name].children
            }
        &&& matched > 0 ==> !crate::evict::is_crowded(
            if self.entries()[hashes[matched - 1]@].place is Ram {
                after.ram_candidates()
            } else {
                after.disk_candidates()
            },
            after.entries().len(),
        )
        &&& after.clock() == crate::index::ticks(
            self.clock(),
            if matched < hashes.len() {
                matched + 1
            } else {
                matched
            },
        )
        &&& after.ram_inflation() == self.ram_inflation()
        &&& after.disk_inflation() == self.disk_inflation()
        &&& after.free_slots() == self.free_slots()
        &&& after.free_disk_slots() == self.free_disk_slots()
        &&& after.moved() == self.moved()
        &&& after.reserved() == self.reserved()
        &&& after.reserved_on_disk() == self.reserved_on_disk()
        &&& after.withheld().subset_of(self.withheld())
        &&& after.passed_over().subset_of(self.passed_over())
        &&& after.counters() == (Stats {
            lookups: crate::tier::raised(self.counters().lookups, 1),
            queried_blocks: crate::tier::raised(
                self.counters().queried_blocks,
                hashes.len() as int,
            ),
            hit_blocks: crate::tier::raised(self.counters().hit_blocks, matched as int),
            ..self.counters()
        })
    }

    /// Probe names computed elsewhere. The wire carries hashes rather than
    /// tokens, so a peer never has to ship us a whole prompt to ask.
    pub fn match_prefix(&mut self, hashes: &[BlockHash]) -> (matched: usize)
        requires
            old(self).wf(),
        ensures
            final(self).wf(),
            old(self).probes(final(self), hashes@, matched as nat),
    {
        let matched: usize = self.index.match_prefix(hashes);
        let ghost hits = self.index@;
        let ghost clock = self.index.clock();
        proof {
            crate::index::lemma_hits_touch_only(
                old(self).index@,
                old(self).index.clock(),
                hashes@,
                matched as nat,
            );
            assert(crate::ledger::ram_map(hits) =~= crate::ledger::ram_map(old(self).index@));
            assert(crate::ledger::disk_map(hits) =~= crate::ledger::disk_map(old(self).index@));
            assert forall|name: u128| #[trigger] hits.dom().contains(name) implies {
                &&& old(self).index@.dom().contains(name)
                &&& hits[name] == crate::index::hit(
                    old(self).index@[name],
                    hits[name].last_access,
                )
            } by {
                assert(old(self).index@.dom().contains(name));
            }
            assert(self.wf());
        }
        let mut i: usize = 0;
        while i < matched
            invariant
                self.wf(),
                i <= matched <= hashes@.len(),
                old(self).wf(),
                old(self).same_fields(self),
                self.slab == old(self).slab,
                self.disk == old(self).disk,
                self.stats == old(self).stats,
                self.ram_policy.clock() == old(self).ram_policy.clock(),
                self.disk_policy.clock() == old(self).disk_policy.clock(),
                self.ledger@.ram_held == old(self).ledger@.ram_held,
                self.ledger@.disk_held == old(self).ledger@.disk_held,
                self.ledger@.image == old(self).ledger@.image,
                self.ledger@.loose.subset_of(old(self).ledger@.loose),
                self.ledger@.parked.subset_of(old(self).ledger@.parked),
                hits == crate::index::after_hits(
                    old(self).index@,
                    old(self).index.clock(),
                    hashes@,
                    matched as nat,
                ),
                hits.dom() == old(self).index@.dom(),
                forall|n: int|
                    0 <= n < matched ==> old(self).index@.dom().contains((#[trigger] hashes@[n])@),
                forall|name: u128| #[trigger]
                    old(self).index@.dom().contains(name) ==> hits[name] == crate::index::hit(
                        old(self).index@[name],
                        hits[name].last_access,
                    ),
                self.index@.dom() == old(self).index@.dom(),
                self.index.clock() == clock,
                forall|name: u128| #[trigger]
                    old(self).index@.dom().contains(name) ==> {
                        let now = self.index@[name];
                        if exists|n: int| 0 <= n < i && (#[trigger] hashes@[n])@ == name {
                            &&& now == (Entry {
                                priority: now.priority,
                                priority_access: hits[name].last_access,
                                ..hits[name]
                            })
                            &&& crate::evict::priced(
                                old(self).costs,
                                if hits[name].place is Ram {
                                    old(self).ram_policy.clock()
                                } else {
                                    old(self).disk_policy.clock()
                                },
                                hits[name].depth_tokens,
                                now.priority,
                            )
                        } else {
                            now == hits[name]
                        }
                    },
                i > 0 ==> !crate::evict::is_crowded(
                    if old(self).index@[hashes@[i - 1]@].place is Ram {
                        self.ram_policy@.len()
                    } else {
                        self.disk_policy@.len()
                    },
                    self.index@.len(),
                ),
            decreases matched - i,
        {
            let ghost before = *self;
            let hash: BlockHash = hashes[i];
            self.reprice(hash);
            i = i + 1;
            proof {
                assert(old(self).index@.dom().contains(hashes@[i - 1]@));
                assert forall|name: u128| #[trigger] old(self).index@.dom().contains(name) implies {
                    let now = self.index@[name];
                    if exists|n: int| 0 <= n < i && (#[trigger] hashes@[n])@ == name {
                        &&& now == (Entry {
                            priority: now.priority,
                            priority_access: hits[name].last_access,
                            ..hits[name]
                        })
                        &&& crate::evict::priced(
                            old(self).costs,
                            if hits[name].place is Ram {
                                old(self).ram_policy.clock()
                            } else {
                                old(self).disk_policy.clock()
                            },
                            hits[name].depth_tokens,
                            now.priority,
                        )
                    } else {
                        now == hits[name]
                    }
                } by {
                    if name == hash@ {
                        assert(hashes@[i - 1]@ == name);
                    } else {
                        assert(self.index@[name] == before.index@[name]);
                        if exists|n: int| 0 <= n < i && (#[trigger] hashes@[n])@ == name {
                            let n = choose|n: int| 0 <= n < i && (#[trigger] hashes@[n])@ == name;
                            assert(n < i - 1);
                        }
                    }
                }
            }
        }
        self.stats.lookups = self.stats.lookups.saturating_add(1);
        self.stats.queried_blocks = self.stats.queried_blocks.saturating_add(hashes.len() as u64);
        self.stats.hit_blocks = self.stats.hit_blocks.saturating_add(matched as u64);
        proof {
            crate::index::lemma_hits_touch_only(
                old(self).index@,
                old(self).index.clock(),
                hashes@,
                matched as nat,
            );
        }
        matched
    }

    /// Name every full block of `tokens` and report how many are resident.
    pub fn lookup(&mut self, tokens: &[TokenId]) -> (found: Lookup)
        requires
            old(self).wf(),
        ensures
            final(self).wf(),
            found.wf(),
            found.tokens_per_block == old(self).shape().tokens_per_block,
            found.tokens_per_block > 0,
            found.hashes@.len() == tokens@.len() / found.tokens_per_block as nat,
            forall|i: int|
                0 <= i < found.hashes@.len() ==> (#[trigger] found.hashes@[i])@
                    == crate::block::chain_name(
                    old(self).root(),
                    found.tokens_per_block as nat,
                    tokens@,
                    i as nat,
                ),
            old(self).probes(final(self), found.hashes@, found.matched as nat),
    {
        let hashes = self.hasher.chain(tokens);
        let matched: usize = self.match_prefix(hashes.as_slice());
        let tokens_per_block: usize = self.layout.tokens_per_block;
        proof {
            assert(matched * tokens_per_block <= tokens@.len()) by (nonlinear_arith)
                requires
                    matched <= tokens@.len() / tokens_per_block as nat,
                    tokens_per_block > 0,
            ;
            assert(tokens.len() == tokens@.len());
        }
        Lookup { hashes, matched, tokens_per_block }
    }

    /// Borrow a block's bytes, if it is in RAM. A demoted block reads as
    /// `None` here; `pin_run` promotes it first.
    pub fn read(&self, hash: BlockHash) -> (bytes: Option<&[u8]>)
        requires
            self.wf(),
        ensures
            match bytes {
                Some(bytes) => {
                    &&& self.entries().dom().contains(hash@)
                    &&& self.entries()[hash@].place is Ram
                    &&& bytes@ == self.contents(hash@)
                },
                None => self.entries().dom().contains(hash@) ==> self.entries()[hash@].place
                    is Disk,
            },
    {
        let slot: SlotId = match self.index.get(hash) {
            None => {
                return None;
            },
            Some(entry) => match entry.place.ram() {
                None => {
                    return None;
                },
                Some(slot) => slot,
            },
        };
        proof {
            self.slab.lemma_shape();
            assert(crate::ledger::ram_map(self.index@).dom().contains(hash@));
        }
        Some(self.slab.block(slot))
    }

    /// Whether the cache holds this block at all, in either tier.
    pub fn contains(&self, hash: BlockHash) -> (found: bool)
        ensures
            found == self.entries().dom().contains(hash@),
    {
        self.index.contains(hash)
    }

    /// How many readers hold a block open.
    pub open spec fn pins_of(&self, name: u128) -> nat {
        if self.entries().dom().contains(name) {
            self.entries()[name].pins as nat
        } else {
            0
        }
    }

    /// `name` is the same block afterwards, whoever reads it.
    pub open spec fn remembers(&self, after: &Self, name: u128) -> bool {
        &&& self.entries().dom().contains(name)
        &&& after.entries().dom().contains(name)
        &&& after.entries()[name].parent == self.entries()[name].parent
        &&& after.entries()[name].depth_tokens == self.entries()[name].depth_tokens
        &&& after.contents(name) == self.contents(name)
    }

    /// A promotion that the store is still waiting for.
    pub closed spec fn awaits(&self, promotion: Promotion) -> bool {
        let name = promotion.hash@;
        &&& self.index@.dom().contains(name)
        &&& self.index@[name].place.copy() == Some(promotion.disk_slot)
        &&& self.ledger@.ram_held.contains(promotion.writer.place())
        &&& promotion.writer.staged().len() == self.slab.width()
    }

    /// The parts of a fetch that the store stands by: every block is pinned
    /// as often as it occurs, and every one that is still on disk has a slot
    /// of its own.
    pub open spec fn stands_by(&self, parts: Seq<FetchPart>, names: Seq<u128>) -> bool {
        &&& forall|name: u128|
            #![trigger occurrences(names, name)]
            #![trigger self.pins_of(name)]
            self.pins_of(name) >= occurrences(names, name)
        &&& forall|i: int|
            0 <= i < parts.len() ==> {
                (#[trigger] parts[i]) matches FetchPart::Pending(promotion) ==> self.awaits(promotion)
            }
        &&& forall|i: int, j: int|
            0 <= i < j < parts.len() ==> match (#[trigger] parts[i], #[trigger] parts[j]) {
                (FetchPart::Pending(a), FetchPart::Pending(b)) => a.target() != b.target(),
                _ => true,
            }
        &&& part_slots(parts).subset_of(self.reserved())
    }

    /// A store stays sound where nothing moves and nothing is priced anew.
    proof fn lemma_nothing_moved(&self, after: &Self, loose: Set<u128>)
        requires
            self.wf(),
            self.ledger@.loose.subset_of(loose),
            self.same_fields(after),
            after.slab == self.slab,
            after.disk == self.disk,
            after.ram_policy == self.ram_policy,
            after.disk_policy == self.disk_policy,
            after.ledger == self.ledger,
            after.index.wf(),
            after.index@.dom() == self.index@.dom(),
            forall|name: u128| #[trigger]
                after.index@.dom().contains(name) ==> {
                    &&& after.index@[name].place == self.index@[name].place
                    &&& after.index@[name].children == self.index@[name].children
                    &&& crate::evict::standing(name, after.index@[name]) == crate::evict::standing(
                        name,
                        self.index@[name],
                    )
                },
        ensures
            after.sound(),
            after.covered(loose),
    {
        assert(crate::ledger::ram_map(after.index@) =~= crate::ledger::ram_map(self.index@));
        assert(crate::ledger::disk_map(after.index@) =~= crate::ledger::disk_map(self.index@));
        assert forall|name: u128| #[trigger]
            after.index@.dom().contains(name) && is_due(
                after.index@,
                loose,
                after.ledger@.parked,
                name,
            ) implies {
            if after.index@[name].place is Ram {
                after.ram_policy@.contains(crate::evict::standing(name, after.index@[name]))
            } else {
                after.disk_policy@.contains(crate::evict::standing(name, after.index@[name]))
            }
        } by {
            assert(self.index@.dom().contains(name));
            assert(is_due(self.index@, self.ledger@.loose, self.ledger@.parked, name));
        }
    }

    /// Let go of a block held open.
    fn unpin_block(&mut self, hash: BlockHash)
        requires
            old(self).wf(),
        ensures
            final(self).wf(),
            old(self).same_fields(final(self)),
            final(self).slab == old(self).slab,
            final(self).disk == old(self).disk,
            final(self).stats == old(self).stats,
            final(self).ledger == old(self).ledger,
            final(self).ram_policy == old(self).ram_policy,
            final(self).disk_policy == old(self).disk_policy,
            final(self).index.clock() == old(self).index.clock(),
            final(self).index@ == (if old(self).index@.dom().contains(hash@)
                && old(self).index@[hash@].pins > 0 {
                old(self).index@.insert(
                    hash@,
                    Entry {
                        pins: (old(self).index@[hash@].pins - 1) as u64,
                        ..old(self).index@[hash@]
                    },
                )
            } else {
                old(self).index@
            }),
            final(self).index@.dom() == old(self).index@.dom(),
    {
        self.index.unpin(hash);
        proof {
            assert(self.index@.dom() =~= old(self).index@.dom());
            old(self).lemma_nothing_moved(self, self.ledger@.loose);
        }
    }

    /// Hold a block open, as a hit.
    fn pin_block(&mut self, hash: BlockHash) -> (place: Option<Place>)
        requires
            old(self).wf(),
        ensures
            final(self).wf(),
            old(self).same_fields(final(self)),
            final(self).slab == old(self).slab,
            final(self).disk == old(self).disk,
            final(self).stats == old(self).stats,
            final(self).ledger@.ram_held == old(self).ledger@.ram_held,
            final(self).ledger@.disk_held == old(self).ledger@.disk_held,
            final(self).ledger@.image == old(self).ledger@.image,
            final(self).ledger@.loose.subset_of(old(self).ledger@.loose),
            final(self).ledger@.parked.subset_of(old(self).ledger@.parked),
            final(self).ram_policy.clock() == old(self).ram_policy.clock(),
            final(self).disk_policy.clock() == old(self).disk_policy.clock(),
            final(self).index@.dom() == old(self).index@.dom(),
            match place {
                Some(place) => {
                    &&& old(self).index@.dom().contains(hash@)
                    &&& old(self).index@[hash@].pins < u64::MAX
                    &&& place == old(self).index@[hash@].place
                    &&& final(self).is_lean(hash@)
                    &&& final(self).index.clock() == crate::index::tick(old(self).index.clock())
                    &&& final(self).index@ == old(self).index@.insert(
                        hash@,
                        Entry {
                            pins: (old(self).index@[hash@].pins + 1) as u64,
                            last_access: final(self).index.clock(),
                            priority: final(self).index@[hash@].priority,
                            priority_access: final(self).index.clock(),
                            ..old(self).index@[hash@]
                        },
                    )
                    &&& crate::evict::priced(
                        old(self).costs,
                        if place is Ram {
                            old(self).ram_policy.clock()
                        } else {
                            old(self).disk_policy.clock()
                        },
                        old(self).index@[hash@].depth_tokens,
                        final(self).index@[hash@].priority,
                    )
                },
                None => {
                    &&& old(self).index@.dom().contains(hash@) ==> old(self).index@[hash@].pins
                        == u64::MAX
                    &&& final(self).index@ == old(self).index@
                    &&& final(self).index.clock() == old(self).index.clock()
                    &&& final(self).ledger == old(self).ledger
                },
            },
    {
        match self.index.pin(hash) {
            None => None,
            Some(place) => {
                proof {
                    assert(self.index@.dom() =~= old(self).index@.dom());
                    old(self).lemma_nothing_moved(self, self.ledger@.loose.insert(hash@));
                }
                self.reprice(hash);
                Some(place)
            },
        }
    }

    /// One more reader holds a block open, and it counts as used.
    pub open spec fn holds(&self, after: &Self, hash: BlockHash) -> bool {
        let before = self.entries()[hash@];
        &&& self.same_setup(after)
        &&& self.entries().dom().contains(hash@)
        &&& before.pins < u64::MAX
        &&& after.is_lean(hash@)
        &&& after.clock() == crate::index::tick(self.clock())
        &&& after.entries() == self.entries().insert(
            hash@,
            Entry {
                pins: (before.pins + 1) as u64,
                last_access: after.clock(),
                priority: after.entries()[hash@].priority,
                priority_access: after.clock(),
                ..before
            },
        )
        &&& crate::evict::priced(
            self.pricing(),
            if before.place is Ram {
                self.ram_inflation()
            } else {
                self.disk_inflation()
            },
            before.depth_tokens,
            after.entries()[hash@].priority,
        )
        &&& forall|name: u128| #[trigger]
            self.entries().dom().contains(name) ==> after.contents(name) == self.contents(name)
        &&& after.free_slots() == self.free_slots()
        &&& after.free_disk_slots() == self.free_disk_slots()
        &&& after.moved() == self.moved()
        &&& after.counters() == self.counters()
        &&& after.reserved() == self.reserved()
        &&& after.reserved_on_disk() == self.reserved_on_disk()
        &&& after.withheld().subset_of(self.withheld())
        &&& after.passed_over().subset_of(self.passed_over())
        &&& after.ram_inflation() == self.ram_inflation()
        &&& after.disk_inflation() == self.disk_inflation()
    }

    /// A block is held open: as of now, or already where it is `waiting`.
    pub open spec fn is_held(&self, held: &Self, hash: BlockHash, waiting: bool) -> bool {
        if waiting {
            *held == *self
        } else {
            self.holds(held, hash)
        }
    }

    /// One reader fewer holds a block open.
    pub open spec fn lets_go(&self, after: &Self, hash: BlockHash) -> bool {
        &&& self.same_setup(after)
        &&& after.entries() == self.entries().insert(
            hash@,
            Entry {
                pins: (self.entries()[hash@].pins - 1) as u64,
                ..self.entries()[hash@]
            },
        )
        &&& forall|name: u128| #[trigger]
            self.entries().dom().contains(name) ==> after.contents(name) == self.contents(name)
        &&& after.clock() == self.clock()
        &&& after.free_slots() == self.free_slots()
        &&& after.free_disk_slots() == self.free_disk_slots()
        &&& after.moved() == self.moved()
        &&& after.counters() == self.counters()
        &&& after.reserved() == self.reserved()
        &&& after.reserved_on_disk() == self.reserved_on_disk()
        &&& after.withheld() == self.withheld()
        &&& after.ram_inflation() == self.ram_inflation()
        &&& after.disk_inflation() == self.disk_inflation()
    }

    /// Memory is set aside for a block that is on disk.
    pub open spec fn sets_aside(
        &self,
        after: &Self,
        hash: BlockHash,
        promotion: Promotion,
    ) -> bool {
        &&& self.same_setup(after)
        &&& promotion.name() == hash@
        &&& !promotion.is_filled()
        &&& self.entries()[hash@].place == Place::Disk(promotion.source())
        &&& after.awaits(promotion)
        &&& exists|passed: Set<u128>| #[trigger]
            self.made_way(after, after.entries(), passed, Some(hash)) && after.passed_over().subset_of(
                passed,
            )
        &&& forall|name: u128| #[trigger]
            after.entries().dom().contains(name) ==> self.carries(after, name)
        &&& after.clock() == self.clock()
        &&& after.free_slots() == (if self.free_slots() > 0 {
            (self.free_slots() - 1) as nat
        } else {
            0
        })
        &&& after.moved() == self.moved()
        &&& !self.reserved().contains(promotion.target())
        &&& after.reserved() == self.reserved().insert(promotion.target())
        &&& after.reserved_on_disk() == self.reserved_on_disk()
        &&& after.withheld().subset_of(self.withheld())
        &&& after.counters() == (Stats {
            evicted_blocks: after.counters().evicted_blocks,
            demoted_blocks: after.counters().demoted_blocks,
            ..self.counters()
        })
    }

    /// Find memory for a block on disk to be read into, and hold it in
    /// reserve. A `Gap` means that there is none to be had.
    fn find_memory(&mut self, hash: BlockHash, disk_slot: DiskSlot) -> (opened: Opened)
        requires
            old(self).wf(),
            old(self).index@.dom().contains(hash@),
            old(self).index@[hash@].place == Place::Disk(disk_slot),
        ensures
            final(self).wf(),
            old(self).same_setup(final(self)),
            old(self).keeps_pinned(final(self)),
            forall|name: u128| #[trigger]
                final(self).index@.dom().contains(name) ==> old(self).carries(final(self), name),
            final(self).index@.dom().contains(hash@),
            final(self).index@[hash@].place == old(self).index@[hash@].place,
            final(self).stats.lookups == old(self).stats.lookups,
            final(self).stats.queried_blocks == old(self).stats.queried_blocks,
            final(self).stats.hit_blocks == old(self).stats.hit_blocks,
            final(self).stats.promoted_blocks == old(self).stats.promoted_blocks,
            final(self).moved() == old(self).moved(),
            final(self).ram_policy.clock() >= old(self).ram_policy.clock(),
            final(self).disk_policy.clock() >= old(self).disk_policy.clock(),
            match opened {
                Opened::Ready(_) => false,
                Opened::Pending(promotion) => {
                    &&& old(self).sets_aside(final(self), hash, promotion)
                    &&& final(self).ledger@.ram_held == old(self).ledger@.ram_held.insert(
                        promotion.target(),
                    )
                    &&& final(self).ledger@.disk_held == old(self).ledger@.disk_held
                    &&& final(self).ledger@.loose.subset_of(old(self).ledger@.loose)
                    &&& old(self).free_slots() > 0 ==> {
                        &&& final(self).index@ == old(self).index@
                        &&& final(self).stats == old(self).stats
                    }
                },
                Opened::Gap => {
                    &&& old(self).has_no_room(final(self).passed_over(), Some(hash))
                    &&& old(self).same_state(final(self))
                    &&& final(self).stats == old(self).stats
                    &&& final(self).disk == old(self).disk
                    &&& final(self).ledger@ == (Ledger {
                        parked: final(self).ledger@.parked,
                        ..old(self).ledger@
                    })
                },
                Opened::Demote(demotion) => {
                    &&& old(self).has_to_demote(final(self), Some(hash), demotion)
                    &&& demotion.name() != hash@
                },
            },
    {
        let ghost started = *self;
        let ghost mut passed = self.ledger@.parked;
        let mut held: Option<SlotId> = self.hold_slot();
        if held.is_none() {
            let ghost full = *self;
            let room = self.make_room(Some(hash));
            proof {
                self.lemma_after_room(&full, Some(hash), room);
                started.lemma_carried_by_bytes(&full);
                assert forall|name: u128| #[trigger]
                    self.index@.dom().contains(name) implies started.carries(self, name) by {
                    assert(full.carries(self, name));
                }
            }
            match room {
                Room::Freed(victim) => {
                    proof {
                        passed = choose|passed: Set<u128>| #[trigger]
                            full.chooses(passed, Some(hash), victim@)
                                && self.ledger@.parked.subset_of(passed);
                        assert(started.gives_way(self.entries(), passed, Some(hash), victim@));
                    }
                    held = self.hold_slot();
                },
                Room::Demote(demotion) => {
                    proof {
                        let passed = choose|passed: Set<u128>| #[trigger]
                            full.chooses(passed, Some(hash), demotion.name())
                                && self.ledger@.parked.subset_of(
                                if demotion.is_leaf() {
                                    passed
                                } else {
                                    passed.insert(demotion.name())
                                },
                            );
                        assert(started.chooses(passed, Some(hash), demotion.name()));
                    }
                    return Opened::Demote(demotion);
                },
                Room::Refused => {},
            }
        }
        match held {
            Some(slot) => {
                proof {
                    self.slab.lemma_shape();
                }
                let promotion = Promotion {
                    hash,
                    disk_slot,
                    writer: self.slab.writer(slot),
                    filled: false,
                };
                proof {
                    assert(started.made_way(self, self.entries(), passed, Some(hash)));
                    assert forall|name: u128| #[trigger]
                        self.entries().dom().contains(name) implies started.carries(
                        self,
                        name,
                    ) by {}
                    assert(started.sets_aside(self, hash, promotion));
                }
                Opened::Pending(promotion)
            },
            None => Opened::Gap,
        }
    }

    /// What holding one block open for reading does.
    #[verifier::opaque]
    pub open spec fn opens(
        &self,
        after: &Self,
        hash: BlockHash,
        waiting: bool,
        opened: Opened,
    ) -> bool {
        ||| {
            &&& opened is Gap
            &&& !waiting
            &&& self.entries().dom().contains(hash@) ==> self.entries()[hash@].pins == u64::MAX
            &&& self.same_state(after)
            &&& after.passed_over() == self.passed_over()
            &&& after.counters() == self.counters()
        }
        ||| exists|held: Self|
            {
                &&& #[trigger] self.is_held(&held, hash, waiting)
                &&& match opened {
                    Opened::Ready(block) => {
                        &&& held.entries()[hash@].place is Ram
                        &&& *after == held
                        &&& block.name() == hash@
                        &&& block.payload() == held.contents(hash@)
                    },
                    Opened::Pending(promotion) => held.sets_aside(after, hash, promotion),
                    Opened::Gap => {
                        &&& held.entries()[hash@].place is Disk
                        &&& held.has_no_room(after.passed_over(), Some(hash))
                        &&& held.lets_go(after, hash)
                    },
                    Opened::Demote(demotion) => {
                        &&& held.entries()[hash@].place is Disk
                        &&& held.has_to_demote(after, Some(hash), demotion)
                    },
                }
            }
    }

    /// Hold a block open for reading, with memory for it if it is on disk.
    /// Where it is `waiting` it is pinned already.
    fn open_block(&mut self, hash: BlockHash, waiting: bool) -> (opened: Opened)
        requires
            old(self).wf(),
            waiting ==> old(self).index@.dom().contains(hash@) && old(self).index@[hash@].pins > 0,
        ensures
            final(self).wf(),
            old(self).opens(final(self), hash, waiting, opened),
            old(self).same_setup(final(self)),
            final(self).stats.lookups == old(self).stats.lookups,
            final(self).stats.queried_blocks == old(self).stats.queried_blocks,
            final(self).stats.hit_blocks == old(self).stats.hit_blocks,
            final(self).stats.promoted_blocks == old(self).stats.promoted_blocks,
            final(self).moved() == old(self).moved(),
            final(self).ram_policy.clock() >= old(self).ram_policy.clock(),
            final(self).disk_policy.clock() >= old(self).disk_policy.clock(),
            forall|name: u128| #[trigger]
                final(self).index@.dom().contains(name) ==> {
                    &&& old(self).remembers(final(self), name)
                    &&& name != hash@ ==> final(self).index@[name].pins
                        == old(self).index@[name].pins
                },
            forall|name: u128| #[trigger]
                old(self).index@.dom().contains(name) && old(self).index@[name].pins > 0 ==> {
                    &&& final(self).index@.dom().contains(name)
                    &&& final(self).index@[name].place == old(self).index@[name].place
                },
            match opened {
                Opened::Gap => {
                    &&& old(self).index@.dom().contains(hash@)
                        ==> final(self).index@.dom().contains(hash@) && final(self).index@[hash@].pins == old(self).index@[hash@].pins - if waiting {
                        1int
                    } else {
                        0
                    }
                    &&& old(self).index@.dom().contains(hash@) ==> old(self).index@[hash@].pins
                        == u64::MAX || {
                        &&& old(self).index@[hash@].place is Disk
                        &&& old(self).free_slots() == 0
                        &&& forall|name: u128| #[trigger]
                            is_spare(old(self).index@, Some(hash), name)
                                ==> old(self).ledger@.loose.contains(name)
                    }
                    &&& final(self).ledger@.ram_held == old(self).ledger@.ram_held
                    &&& final(self).ledger@.disk_held == old(self).ledger@.disk_held
                    &&& final(self).ledger@.loose.subset_of(old(self).ledger@.loose)
                    &&& final(self).stats == old(self).stats
                    &&& final(self).index@.dom() == old(self).index@.dom()
                    &&& final(self).free_slots() == old(self).free_slots()
                    &&& forall|name: u128| #[trigger]
                        old(self).index@.dom().contains(name) ==> {
                            &&& final(self).index@[name].place == old(self).index@[name].place
                            &&& final(self).index@[name].children == old(
                                self).index@[name].children
                        }
                },
                _ => {
                    &&& old(self).index@.dom().contains(hash@)
                    &&& final(self).index@.dom().contains(hash@)
                    &&& final(self).index@[hash@].place == old(self).index@[hash@].place
                    &&& final(self).index@[hash@].pins == old(self).index@[hash@].pins
                        + if waiting {
                        0int
                    } else {
                        1
                    }
                },
            },
            match opened {
                Opened::Ready(block) => {
                    &&& block.name() == hash@
                    &&& old(self).index@[hash@].place matches Place::Ram { slot, .. }
                        && block.place() == slot.number
                    &&& block.payload() == old(self).contents(hash@)
                    &&& final(self).ledger@.ram_held == old(self).ledger@.ram_held
                    &&& final(self).ledger@.disk_held == old(self).ledger@.disk_held
                    &&& final(self).ledger@.loose.subset_of(old(self).ledger@.loose)
                    &&& final(self).slab == old(self).slab
                    &&& final(self).stats == old(self).stats
                    &&& final(self).index@.dom() == old(self).index@.dom()
                },
                Opened::Pending(promotion) => {
                    &&& promotion.name() == hash@
                    &&& !promotion.is_filled()
                    &&& old(self).index@[hash@].place == Place::Disk(promotion.source())
                    &&& final(self).awaits(promotion)
                    &&& !old(self).ledger@.ram_held.contains(promotion.target())
                    &&& final(self).ledger@.ram_held == old(self).ledger@.ram_held.insert(
                        promotion.target(),
                    )
                    &&& final(self).ledger@.disk_held == old(self).ledger@.disk_held
                    &&& final(self).ledger@.loose.subset_of(old(self).ledger@.loose)
                    &&& old(self).free_slots() > 0 ==> {
                        &&& final(self).index@.dom() == old(self).index@.dom()
                        &&& final(self).stats == old(self).stats
                        &&& final(self).free_slots() == old(self).free_slots() - 1
                    }
                },
                Opened::Gap => true,
                Opened::Demote(demotion) => {
                    &&& final(self).honors(demotion)
                    &&& demotion.name() != hash@
                    &&& demotion.payload() == old(self).contents(demotion.name())
                    &&& old(self).free_slots() == 0
                    &&& old(self).index@[hash@].place is Disk
                    &&& final(self).ledger@.ram_held == old(self).ledger@.ram_held
                    &&& !old(self).ledger@.disk_held.contains(demotion.target().number)
                    &&& final(self).ledger@.disk_held == old(self).ledger@.disk_held.insert(
                        demotion.target().number,
                    )
                    &&& final(self).ledger@.loose.subset_of(
                        if demotion.is_leaf() {
                            old(self).ledger@.loose.insert(demotion.name())
                        } else {
                            old(self).ledger@.loose
                        },
                    )
                },
            },
    {
        proof {
            reveal(KvStore::opens);
        }
        if !waiting {
            if self.pin_block(hash).is_none() {
                return Opened::Gap;
            }
        }
        let ghost pinned = *self;
        assert(old(self).is_held(&pinned, hash, waiting));
        let place: Place = match self.index.get(hash) {
            None => {
                return Opened::Gap;
            },
            Some(entry) => entry.place,
        };
        let disk_slot: DiskSlot = match place {
            Place::Ram { slot, .. } => {
                proof {
                    self.slab.lemma_shape();
                    assert(crate::ledger::ram_map(self.index@).dom().contains(hash@));
                }
                return Opened::Ready(self.slab.pinned(hash, slot));
            },
            Place::Disk(disk_slot) => disk_slot,
        };
        // The pin keeps this block off both eviction heaps while it is read.
        let opened = self.find_memory(hash, disk_slot);
        proof {
            assert forall|name: u128| #[trigger]
                self.index@.dom().contains(name) implies old(self).remembers(self, name) by {
                assert(pinned.carries(self, name));
            }
            if opened is Gap {
                assert forall|name: u128| #[trigger]
                    is_spare(old(self).index@, Some(hash), name) implies old(self).ledger@.loose.contains(name) by {
                    assert(is_idle(pinned.index@, Some(hash), name));
                }
            }
        }
        if let Opened::Gap = opened {
            self.unpin_block(hash);
        }
        opened
    }

    /// Whatever the store stands by it still stands by after anything that
    /// leaves pinned blocks and reserved slots alone.
    pub proof fn lemma_promises_stand(
        &self,
        after: &Self,
        parts: Seq<FetchPart>,
        names: Seq<u128>,
    )
        requires
            self.wf(),
            after.wf(),
            self.same_setup(after),
            self.stands_by(parts, names),
            self.keeps_pinned(after),
            self.reserved().subset_of(after.reserved()),
            forall|i: int| 0 <= i < parts.len() ==> names.contains((#[trigger] parts[i]).name()),
        ensures
            after.stands_by(parts, names),
    {
        assert forall|name: u128| after.pins_of(name) >= #[trigger] occurrences(names, name) by {
            assert(self.pins_of(name) >= occurrences(names, name));
            if self.pins_of(name) > 0 {
                assert(self.entries().dom().contains(name));
            }
        }
        assert forall|i: int| 0 <= i < parts.len() implies {
            (#[trigger] parts[i]) matches FetchPart::Pending(promotion) ==> after.awaits(promotion)
        } by {
            let name = parts[i].name();
            let k = choose|k: int| 0 <= k < names.len() && names[k] == name;
            lemma_occurs(names, k);
            assert(self.pins_of(name) >= occurrences(names, name));
            assert(self.entries().dom().contains(name));
        }
    }

    /// Holding one block open leaves the readers of all others alone.
    proof fn lemma_pins_elsewhere(&self, after: &Self, hash: BlockHash)
        requires
            forall|name: u128| #[trigger]
                after.index@.dom().contains(name) ==> {
                    &&& self.index@.dom().contains(name)
                    &&& name != hash@ ==> after.index@[name].pins == self.index@[name].pins
                },
            forall|name: u128| #[trigger]
                self.index@.dom().contains(name) && self.index@[name].pins > 0
                    ==> after.index@.dom().contains(name),
        ensures
            forall|name: u128|
                #![trigger after.pins_of(name)]
                name != hash@ ==> after.pins_of(name) == self.pins_of(name),
    {
        assert forall|name: u128|
            #![trigger after.pins_of(name)]
            name != hash@ implies after.pins_of(name) == self.pins_of(name) by {
            if self.pins_of(name) > 0 {
                assert(self.index@.dom().contains(name));
            }
            if after.index@.dom().contains(name) {
                assert(self.index@.dom().contains(name));
            }
        }
    }

    /// Each of the blocks, from `first` on, is held open in turn, leading from
    /// one store of the trace to the next.
    #[verifier::opaque]
    pub open spec fn is_opening(
        trace: Seq<Self>,
        opened: Seq<Opened>,
        hashes: Seq<BlockHash>,
        first: int,
        waiting: bool,
    ) -> bool {
        &&& trace.len() == opened.len() + 1
        &&& forall|k: int|
            0 <= k < opened.len() ==> trace[k].opens(
                &trace[k + 1],
                hashes[first + k],
                waiting && k == 0,
                #[trigger] opened[k],
            )
    }

    /// One more block may be held open.
    proof fn lemma_opening_goes_on(
        trace: Seq<Self>,
        opened: Seq<Opened>,
        hashes: Seq<BlockHash>,
        first: int,
        waiting: bool,
        next: Self,
        last: Opened,
    )
        requires
            Self::is_opening(trace, opened, hashes, first, waiting),
            trace.last().opens(
                &next,
                hashes[first + opened.len()],
                waiting && opened.len() == 0,
                last,
            ),
        ensures
            Self::is_opening(trace.push(next), opened.push(last), hashes, first, waiting),
    {
        reveal(KvStore::is_opening);
        let longer = trace.push(next);
        assert forall|k: int| 0 <= k < opened.len() + 1 implies longer[k].opens(
            &longer[k + 1],
            hashes[first + k],
            waiting && k == 0,
            #[trigger] opened.push(last)[k],
        ) by {
            if k < opened.len() {
                assert(opened.push(last)[k] == opened[k]);
                assert(longer[k] == trace[k] && longer[k + 1] == trace[k + 1]);
            } else {
                assert(longer[k] == trace.last());
            }
        }
    }

    /// The blocks of a run are held open in turn, from here on.
    pub open spec fn opens_run(
        &self,
        hashes: Seq<BlockHash>,
        first: int,
        waiting: bool,
        trace: Seq<Self>,
        opened: Seq<Opened>,
    ) -> bool {
        &&& Self::is_opening(trace, opened, hashes, first, waiting)
        &&& trace.len() == opened.len() + 1
        &&& trace[0] == *self
        &&& first + opened.len() <= hashes.len()
    }

    /// A lookup is counted, and nothing else happens.
    pub open spec fn counts_lookup(&self, after: &Self, queried: nat, hit: nat) -> bool {
        &&& self.same_state(after)
        &&& after.passed_over() == self.passed_over()
        &&& after.counters() == (Stats {
            lookups: crate::tier::raised(self.counters().lookups, 1),
            queried_blocks: crate::tier::raised(self.counters().queried_blocks, queried as int),
            hit_blocks: crate::tier::raised(self.counters().hit_blocks, hit as int),
            ..self.counters()
        })
    }

    /// What beginning a fetch does: block after block is held open until one
    /// is missing or cannot be had, or a demotion has to happen first.
    pub open spec fn fetches(
        &self,
        after: &Self,
        hashes: Seq<BlockHash>,
        run: FetchRun,
        step: FetchStep,
    ) -> bool {
        let first = run.parts().len() as int;
        exists|trace: Seq<Self>, opened: Seq<Opened>|
            {
                &&& #[trigger] self.opens_run(hashes, first, run.is_waiting(), trace, opened)
                &&& match step {
                    FetchStep::Done(parts) => {
                        let got = parts@.len() - first;
                        &&& is_part_run(opened, parts@, first, got)
                        &&& if opened.len() == got {
                            parts@.len() == hashes.len()
                        } else {
                            opened.len() == got + 1 && opened.last() is Gap
                        }
                        &&& trace.last().counts_lookup(after, hashes.len(), parts@.len())
                    },
                    FetchStep::Demote(demotion, next) => {
                        let got = next.parts().len() - first;
                        &&& is_part_run(opened, next.parts(), first, got)
                        &&& opened.len() == got + 1
                        &&& opened.last() == Opened::Demote(demotion)
                        &&& trace.last() == *after
                    },
                }
            }
    }

    /// One block has `change` readers more, the others have as many as before,
    /// and whatever has readers stays where it is.
    spec fn shifts_pins(&self, after: &Self, hash: BlockHash, change: int) -> bool {
        &&& forall|name: u128| #[trigger]
            after.index@.dom().contains(name) ==> {
                &&& self.remembers(after, name)
                &&& name != hash@ ==> after.index@[name].pins == self.index@[name].pins
            }
        &&& forall|name: u128| #[trigger]
            self.index@.dom().contains(name) && self.index@[name].pins > 0 ==> {
                &&& after.index@.dom().contains(name)
                &&& after.index@[name].place == self.index@[name].place
            }
        &&& if self.index@.dom().contains(hash@) {
            &&& after.index@.dom().contains(hash@)
            &&& after.index@[hash@].place == self.index@[hash@].place
            &&& after.index@[hash@].pins == self.index@[hash@].pins + change
        } else {
            change == 0
        }
    }

    /// How a fetch stands that went on in `start` from the parts `begun`, with
    /// `first` pinned for it, and has come to `parts`, with `held` pinned.
    #[verifier::opaque]
    spec fn is_fetching(
        &self,
        start: &Self,
        begun: Seq<FetchPart>,
        first: Seq<u128>,
        parts: Seq<FetchPart>,
        held: Seq<u128>,
    ) -> bool {
        &&& forall|i: int|
            begun.len() <= i < parts.len() ==> match #[trigger] parts[i] {
                FetchPart::Ready(block) => {
                    &&& self.index@[block.name()].place is Ram
                    &&& block.payload() == start.contents(block.name())
                },
                FetchPart::Pending(promotion) => {
                    &&& self.index@[promotion.name()].place == Place::Disk(promotion.source())
                    &&& !promotion.is_filled()
                },
            }
        &&& forall|name: u128| #[trigger]
            self.index@.dom().contains(name) ==> start.remembers(self, name)
        &&& forall|name: u128| #[trigger]
            start.index@.dom().contains(name) && start.index@[name].pins > 0 ==> {
                &&& self.index@.dom().contains(name)
                &&& self.index@[name].place == start.index@[name].place
            }
        &&& self.stands_by(parts, held)
        &&& forall|name: u128|
            #![trigger self.pins_of(name)]
            self.pins_of(name) + occurrences(first, name) == start.pins_of(name) + occurrences(
                held,
                name,
            )
        &&& self.ledger@.ram_held.difference(part_slots(parts))
            == start.ledger@.ram_held.difference(part_slots(begun))
    }

    /// A fetch goes on with one more part, or ends.
    proof fn lemma_fetch_goes_on(
        &self,
        after: &Self,
        start: &Self,
        begun: Seq<FetchPart>,
        first: Seq<u128>,
        done: Seq<FetchPart>,
        held: Seq<u128>,
        part: Option<FetchPart>,
        now: Seq<u128>,
        hash: BlockHash,
        change: int,
    )
        requires
            self.wf(),
            after.wf(),
            self.slab.width() == after.slab.width(),
            self.is_fetching(start, begun, first, done, held),
            self.shifts_pins(after, hash, change),
            begun.len() <= done.len(),
            held == part_names(done) || held == part_names(done).push(hash@),
            forall|name: u128| #[trigger] occurrences(held, name) >= occurrences(first, name),
            forall|name: u128| #[trigger]
                occurrences(now, name) == occurrences(held, name) + if name == hash@ {
                    change
                } else {
                    0
                },
            match part {
                None => after.ledger@.ram_held == self.ledger@.ram_held,
                Some(FetchPart::Ready(block)) => {
                    &&& block.name() == hash@
                    &&& self.index@.dom().contains(hash@)
                    &&& self.index@[hash@].place is Ram
                    &&& block.payload() == self.contents(hash@)
                    &&& after.ledger@.ram_held == self.ledger@.ram_held
                },
                Some(FetchPart::Pending(promotion)) => {
                    &&& promotion.name() == hash@
                    &&& !promotion.is_filled()
                    &&& self.index@.dom().contains(hash@)
                    &&& self.index@[hash@].place == Place::Disk(promotion.source())
                    &&& after.awaits(promotion)
                    &&& !self.ledger@.ram_held.contains(promotion.target())
                    &&& after.ledger@.ram_held == self.ledger@.ram_held.insert(promotion.target())
                },
            },
        ensures
            after.is_fetching(
                start,
                begun,
                first,
                match part {
                    None => done,
                    Some(part) => done.push(part),
                },
                now,
            ),
    {
        reveal(KvStore::is_fetching);
        self.lemma_pins_elsewhere(after, hash);
        let parts = match part {
            None => done,
            Some(part) => done.push(part),
        };
        if part is Some {
            assert(parts.drop_last() =~= done);
        }
        // What the parts so far rest on is pinned, so it is where it was.
        assert forall|i: int| 0 <= i < done.len() implies {
            let name = (#[trigger] done[i]).name();
            &&& self.index@.dom().contains(name)
            &&& after.index@.dom().contains(name)
            &&& after.index@[name].place == self.index@[name].place
        } by {
            let name = done[i].name();
            assert(held[i] == name);
            lemma_occurs(held, i);
            assert(self.pins_of(name) >= occurrences(held, name));
        }
        assert forall|i: int| 0 <= i < done.len() implies {
            (#[trigger] done[i]) matches FetchPart::Pending(promotion)
                ==> part_slots(done).contains(promotion.target())
        } by {
            lemma_part_slots(done, i);
        }
        assert forall|name: u128| #[trigger]
            start.index@.dom().contains(name) && start.index@[name].pins > 0 implies {
            &&& after.index@.dom().contains(name)
            &&& after.index@[name].place == start.index@[name].place
        } by {
            assert(self.pins_of(name) + occurrences(first, name) == start.pins_of(name)
                + occurrences(held, name));
            assert(occurrences(held, name) >= occurrences(first, name));
        }
        assert forall|name: u128| #[trigger]
            after.index@.dom().contains(name) implies start.remembers(after, name) by {
            assert(self.index@.dom().contains(name));
        }
        assert forall|name: u128|
            #![trigger after.pins_of(name)]
            #![trigger occurrences(now, name)]
            {
                &&& after.pins_of(name) + occurrences(first, name) == start.pins_of(name)
                    + occurrences(now, name)
                &&& after.pins_of(name) >= occurrences(now, name)
            } by {
            assert(self.pins_of(name) >= occurrences(held, name));
            assert(occurrences(now, name) == occurrences(held, name) + if name == hash@ {
                change
            } else {
                0
            });
        }
        assert(after.stands_by(parts, now)) by {
            assert forall|i: int| 0 <= i < parts.len() implies {
                (#[trigger] parts[i]) matches FetchPart::Pending(promotion) ==> after.awaits(
                    promotion,
                )
            } by {
                if i < done.len() {
                    assert(parts[i] == done[i]);
                }
            }
            assert forall|i: int, j: int| 0 <= i < j < parts.len() implies match (
                #[trigger] parts[i],
                #[trigger] parts[j],
            ) {
                (FetchPart::Pending(a), FetchPart::Pending(b)) => a.target() != b.target(),
                _ => true,
            } by {
                assert(parts[i] == done[i]);
                if j < done.len() {
                    assert(parts[j] == done[j]);
                }
            }
        }
        assert forall|i: int| begun.len() <= i < parts.len() implies match #[trigger] parts[i] {
            FetchPart::Ready(block) => {
                &&& after.index@[block.name()].place is Ram
                &&& block.payload() == start.contents(block.name())
            },
            FetchPart::Pending(promotion) => {
                &&& after.index@[promotion.name()].place == Place::Disk(promotion.source())
                &&& !promotion.is_filled()
            },
        } by {
            if i < done.len() {
                assert(parts[i] == done[i]);
            } else {
                assert(start.remembers(self, hash@));
            }
        }
        assert(after.ledger@.ram_held.difference(part_slots(parts))
            =~= self.ledger@.ram_held.difference(part_slots(done)));
    }

    /// Reserve the resident leading run without doing any I/O.
    ///
    /// Blocks already in RAM come back ready; demoted ones come back as
    /// `Pending`, pinned and holding a reserved RAM slot, for the caller to
    /// fill off the lock. Pair every call with `finish_fetch`, or the pins
    /// and slots reserved here leak.
    pub fn begin_fetch(&mut self, hashes: &[BlockHash], run: FetchRun) -> (step: FetchStep)
        requires
            old(self).wf(),
            run.parts().len() <= hashes@.len(),
            run.is_waiting() ==> run.parts().len() < hashes@.len(),
            forall|i: int|
                0 <= i < run.parts().len() ==> (#[trigger] run.parts()[i]).name() == hashes@[i]@,
            old(self).stands_by(run.parts(), claims(run.parts(), run.is_waiting(), hashes@)),
        ensures
            final(self).wf(),
            old(self).fetches(final(self), hashes@, run, step),
            old(self).same_setup(final(self)),
            forall|name: u128| #[trigger]
                final(self).entries().dom().contains(name) ==> old(self).remembers(
                    final(self),
                    name,
                ),
            forall|name: u128| #[trigger]
                old(self).entries().dom().contains(name) && old(self).entries()[name].pins > 0
                    ==> {
                    &&& final(self).entries().dom().contains(name)
                    &&& final(self).entries()[name].place == old(self).entries()[name].place
                },
            final(self).moved() == old(self).moved(),
            final(self).counters().promoted_blocks == old(self).counters().promoted_blocks,
            final(self).ram_inflation() >= old(self).ram_inflation(),
            final(self).disk_inflation() >= old(self).disk_inflation(),
            match step {
                FetchStep::Done(parts) => {
                    &&& run.parts().len() <= parts@.len() <= hashes@.len()
                    &&& parts@.take(run.parts().len() as int) == run.parts()
                    &&& forall|i: int|
                        0 <= i < parts@.len() ==> (#[trigger] parts@[i]).name() == hashes@[i]@
                    &&& forall|i: int|
                        run.parts().len() <= i < parts@.len() ==> match #[trigger] parts@[i] {
                            FetchPart::Ready(block) => {
                                &&& final(self).entries()[block.name()].place is Ram
                                &&& block.payload() == old(self).contents(block.name())
                            },
                            FetchPart::Pending(promotion) => {
                                &&& final(self).entries()[promotion.name()].place == Place::Disk(
                                    promotion.source(),
                                )
                                &&& !promotion.is_filled()
                            },
                        }
                    &&& final(self).stands_by(parts@, part_names(parts@))
                    &&& forall|name: u128|
                        #![trigger final(self).pins_of(name)]
                        final(self).pins_of(name) + occurrences(
                            claims(run.parts(), run.is_waiting(), hashes@),
                            name,
                        ) == old(self).pins_of(name) + occurrences(part_names(parts@), name)
                    &&& final(self).reserved().difference(part_slots(parts@)) == old(
                        self).reserved().difference(part_slots(run.parts()))
                    &&& final(self).reserved_on_disk() == old(self).reserved_on_disk()
                    &&& final(self).withheld().subset_of(old(self).withheld())
                    &&& parts@.len() < hashes@.len() ==> {
                        let name = hashes@[parts@.len() as int]@;
                        ||| !final(self).entries().dom().contains(name)
                        ||| final(self).entries()[name].pins >= u64::MAX - 1
                        ||| {
                            &&& final(self).entries()[name].place is Disk
                            &&& final(self).free_slots() == 0
                            &&& forall|other: u128| #[trigger]
                                is_spare(
                                    final(self).entries(),
                                    Some(hashes@[parts@.len() as int]),
                                    other,
                                ) ==> old(self).withheld().contains(other)
                        }
                    }
                    &&& final(self).counters().lookups == crate::tier::raised(
                        old(self).counters().lookups,
                        1,
                    )
                    &&& final(self).counters().queried_blocks == crate::tier::raised(
                        old(self).counters().queried_blocks,
                        hashes@.len() as int,
                    )
                    &&& final(self).counters().hit_blocks == crate::tier::raised(
                        old(self).counters().hit_blocks,
                        parts@.len() as int,
                    )
                },
                FetchStep::Demote(demotion, next) => {
                    &&& run.parts().len() <= next.parts().len() < hashes@.len()
                    &&& next.is_waiting()
                    &&& next.parts().take(run.parts().len() as int) == run.parts()
                    &&& forall|i: int|
                        0 <= i < next.parts().len() ==> (#[trigger] next.parts()[i]).name()
                            == hashes@[i]@
                    &&& forall|i: int|
                        run.parts().len() <= i < next.parts().len() ==> match
                        #[trigger] next.parts()[i] {
                            FetchPart::Ready(block) => {
                                &&& final(self).entries()[block.name()].place is Ram
                                &&& block.payload() == old(self).contents(block.name())
                            },
                            FetchPart::Pending(promotion) => {
                                &&& final(self).entries()[promotion.name()].place == Place::Disk(
                                    promotion.source(),
                                )
                                &&& !promotion.is_filled()
                            },
                        }
                    &&& final(self).stands_by(
                        next.parts(),
                        claims(next.parts(), true, hashes@),
                    )
                    &&& forall|name: u128|
                        #![trigger final(self).pins_of(name)]
                        final(self).pins_of(name) + occurrences(
                            claims(run.parts(), run.is_waiting(), hashes@),
                            name,
                        ) == old(self).pins_of(name) + occurrences(
                            claims(next.parts(), true, hashes@),
                            name,
                        )
                    &&& final(self).reserved().difference(part_slots(next.parts())) == old(
                        self).reserved().difference(part_slots(run.parts()))
                    &&& final(self).honors(demotion)
                    &&& demotion.payload() == final(self).contents(demotion.name())
                    &&& !old(self).reserved_on_disk().contains(demotion.target().number)
                    &&& final(self).reserved_on_disk() == old(self).reserved_on_disk().insert(
                        demotion.target().number,
                    )
                    &&& final(self).withheld().subset_of(
                        if demotion.is_leaf() {
                            old(self).withheld().insert(demotion.name())
                        } else {
                            old(self).withheld()
                        },
                    )
                    &&& final(self).counters().lookups == old(self).counters().lookups
                    &&& final(self).counters().queried_blocks == old(
                        self).counters().queried_blocks
                    &&& final(self).counters().hit_blocks == old(self).counters().hit_blocks
                },
            },
    {
        let ghost first = claims(run.parts@, run.waiting, hashes@);
        let ghost begun = run.parts@;
        let mut parts: Vec<FetchPart> = run.parts;
        let mut waiting: bool = run.waiting;
        let ghost mut trace: Seq<Self> = seq![*self];
        let ghost mut opens: Seq<Opened> = Seq::empty();
        proof {
            assert(parts@.take(begun.len() as int) =~= begun);
            assert(Self::is_opening(trace, opens, hashes@, begun.len() as int, waiting)) by {
                reveal(KvStore::is_opening);
            }
            assert(self.is_fetching(self, begun, first, parts@, claims(parts@, waiting, hashes@)))
                by {
                reveal(KvStore::is_fetching);
            }
        }
        while parts.len() < hashes.len()
            invariant_except_break
                opens.len() == parts@.len() - begun.len(),
                waiting == (run.is_waiting() && opens.len() == 0),
                waiting ==> parts@.len() < hashes@.len(),
                forall|name: u128| #[trigger]
                    occurrences(claims(parts@, waiting, hashes@), name) >= occurrences(first, name),
            invariant
                old(self).opens_run(
                    hashes@,
                    begun.len() as int,
                    run.is_waiting(),
                    trace,
                    opens,
                ),
                trace.last() == *self,
                is_part_run(
                    opens,
                    parts@,
                    begun.len() as int,
                    parts@.len() - begun.len(),
                ),
                self.wf(),
                old(self).same_setup(self),
                begun == run.parts(),
                first == claims(run.parts(), run.is_waiting(), hashes@),
                begun.len() <= parts@.len() <= hashes@.len(),
                parts@.take(begun.len() as int) == begun,
                forall|i: int|
                    0 <= i < parts@.len() ==> (#[trigger] parts@[i]).name() == hashes@[i]@,
                self.is_fetching(
                    old(self),
                    begun,
                    first,
                    parts@,
                    claims(parts@, waiting, hashes@),
                ),
                self.moved() == old(self).moved(),
                self.stats.lookups == old(self).stats.lookups,
                self.stats.queried_blocks == old(self).stats.queried_blocks,
                self.stats.hit_blocks == old(self).stats.hit_blocks,
                self.stats.promoted_blocks == old(self).stats.promoted_blocks,
                self.ram_policy.clock() >= old(self).ram_policy.clock(),
                self.disk_policy.clock() >= old(self).disk_policy.clock(),
                self.ledger@.disk_held == old(self).ledger@.disk_held,
                self.ledger@.loose.subset_of(old(self).ledger@.loose),
            ensures
                if opens.len() == parts@.len() - begun.len() {
                    parts@.len() == hashes@.len()
                } else {
                    opens.len() == parts@.len() - begun.len() + 1 && opens.last() is Gap
                },
                !waiting,
                parts@.len() < hashes@.len() ==> {
                    let name = hashes@[parts@.len() as int]@;
                    ||| !self.index@.dom().contains(name)
                    ||| self.index@[name].pins >= u64::MAX - 1
                    ||| {
                        &&& self.index@[name].place is Disk
                        &&& self.free_slots() == 0
                        &&& forall|other: u128| #[trigger]
                            is_spare(self.index@, Some(hashes@[parts@.len() as int]), other)
                                ==> old(self).ledger@.loose.contains(other)
                    }
                },
            decreases hashes.len() - parts.len(),
        {
            let hash: BlockHash = hashes[parts.len()];
            let ghost before = *self;
            let ghost held = claims(parts@, waiting, hashes@);
            let ghost done = parts@;
            proof {
                lemma_occurs_once_more(part_names(done), hash@);
                if waiting {
                    assert(occurrences(held, hash@) > 0);
                    assert(self.pins_of(hash@) >= occurrences(held, hash@)) by {
                        reveal(KvStore::is_fetching);
                    }
                }
            }
            let opened = self.open_block(hash, waiting);
            let ghost part = part_of(opened);
            let ghost now = if opened is Gap {
                part_names(done)
            } else {
                part_names(done).push(hash@)
            };
            proof {
                Self::lemma_opening_goes_on(
                    trace,
                    opens,
                    hashes@,
                    begun.len() as int,
                    run.is_waiting(),
                    *self,
                    opened,
                );
                trace = trace.push(*self);
                opens = opens.push(opened);
                let change = if opened is Gap {
                    if waiting {
                        -1int
                    } else {
                        0
                    }
                } else if waiting {
                    0
                } else {
                    1
                };
                assert(before.shifts_pins(self, hash, change));
                before.lemma_fetch_goes_on(
                    self,
                    old(self),
                    begun,
                    first,
                    done,
                    held,
                    part,
                    now,
                    hash,
                    change,
                );
                if let Some(part) = part {
                    lemma_part_names_push(done, part);
                    assert(done.push(part).take(begun.len() as int) =~= begun);
                }
            }
            match opened {
                Opened::Ready(block) => {
                    parts.push(FetchPart::Ready(block));
                    waiting = false;
                },
                Opened::Pending(promotion) => {
                    parts.push(FetchPart::Pending(promotion));
                    waiting = false;
                },
                Opened::Gap => {
                    proof {
                        if self.index@.dom().contains(hash@) && !(self.index@[hash@].pins
                            >= u64::MAX - 1) {
                            assert forall|other: u128| #[trigger]
                                is_spare(self.index@, Some(hash), other) implies old(
                                self).ledger@.loose.contains(other) by {
                                assert(is_spare(before.index@, Some(hash), other));
                            }
                        }
                    }
                    waiting = false;
                    break;
                },
                Opened::Demote(demotion) => {
                    let next = FetchRun { parts, waiting: true };
                    proof {
                        reveal(KvStore::is_fetching);
                        assert(is_part_run(
                            opens,
                            next.parts(),
                            begun.len() as int,
                            next.parts().len() - begun.len(),
                        ));
                        assert(old(self).opens_run(
                            hashes@,
                            begun.len() as int,
                            run.is_waiting(),
                            trace,
                            opens,
                        ));
                        assert(claims(next.parts(), true, hashes@) == now);
                    }
                    return FetchStep::Demote(demotion, next);
                },
            }
        }
        let ghost ended = *self;
        self.stats.lookups = self.stats.lookups.saturating_add(1);
        self.stats.queried_blocks = self.stats.queried_blocks.saturating_add(hashes.len() as u64);
        self.stats.hit_blocks = self.stats.hit_blocks.saturating_add(parts.len() as u64);
        proof {
            reveal(KvStore::is_fetching);
            assert(trace.last().counts_lookup(self, hashes@.len(), parts@.len()));
            assert forall|name: u128|
                #![trigger self.pins_of(name)]
                self.pins_of(name) == ended.pins_of(name) by {}
        }
        FetchStep::Done(parts)
    }

    /// What was read becomes the block's new home, next to its copy on disk.
    /// Where somebody else was quicker the block is home already, and the slot
    /// is given back.
    pub open spec fn publishes(&self, after: &Self, promotion: Promotion) -> bool {
        let name = promotion.name();
        let before = self.entries()[name];
        &&& self.same_setup(after)
        &&& forall|other: u128| #[trigger]
            self.entries().dom().contains(other) && other != name ==> after.contents(other)
                == self.contents(other)
        &&& if before.place is Disk {
            &&& after.entries() == self.entries().insert(
                name,
                Entry {
                    place: Place::Ram {
                        slot: SlotId { number: promotion.target() },
                        backing: Some(promotion.source()),
                    },
                    priority: after.entries()[name].priority,
                    priority_access: before.last_access,
                    ..before
                },
            )
            &&& crate::evict::priced(
                self.pricing(),
                self.ram_inflation(),
                before.depth_tokens,
                after.entries()[name].priority,
            )
            &&& after.is_lean(name)
            &&& after.contents(name) == promotion.staged()
            &&& after.free_slots() == self.free_slots()
        } else {
            &&& after.entries() == self.entries()
            &&& after.contents(name) == self.contents(name)
            &&& after.free_slots() == self.free_slots() + 1
        }
        &&& after.clock() == self.clock()
        &&& after.free_disk_slots() == self.free_disk_slots()
        &&& after.reserved() == self.reserved().remove(promotion.target())
        &&& after.reserved_on_disk() == self.reserved_on_disk()
        &&& after.withheld().subset_of(self.withheld())
        &&& after.passed_over().subset_of(self.passed_over())
        &&& after.ram_inflation() == self.ram_inflation()
        &&& after.disk_inflation() == self.disk_inflation()
    }

    /// What a promotion reserved is given back. The block stays on disk.
    pub open spec fn gives_back(&self, after: &Self, promotion: Promotion) -> bool {
        let name = promotion.name();
        &&& self.same_setup(after)
        &&& after.entries() == (if self.entries().dom().contains(name)
            && self.entries()[name].pins > 0 {
            self.entries().insert(
                name,
                Entry { pins: (self.entries()[name].pins - 1) as u64, ..self.entries()[name] },
            )
        } else {
            self.entries()
        })
        &&& forall|other: u128| #[trigger]
            self.entries().dom().contains(other) ==> after.contents(other) == self.contents(other)
        &&& after.clock() == self.clock()
        &&& after.free_slots() == self.free_slots() + 1
        &&& after.free_disk_slots() == self.free_disk_slots()
        &&& after.moved() == self.moved()
        &&& after.counters() == self.counters()
        &&& after.reserved() == self.reserved().remove(promotion.target())
        &&& after.reserved_on_disk() == self.reserved_on_disk()
        &&& after.withheld() == self.withheld()
        &&& after.passed_over() == self.passed_over()
        &&& after.ram_inflation() == self.ram_inflation()
        &&& after.disk_inflation() == self.disk_inflation()
    }

    /// A filled promotion becomes the block's new home. Where somebody else
    /// was quicker the block is home already, and the slot is given back.
    fn bring_home(&mut self, promotion: Promotion) -> (home: SlotId)
        requires
            old(self).wf(),
            old(self).awaits(promotion),
        ensures
            final(self).wf(),
            old(self).publishes(final(self), promotion),
            old(self).same_setup(final(self)),
            final(self).stats == old(self).stats,
            final(self).disk == old(self).disk,
            final(self).ram_policy.clock() == old(self).ram_policy.clock(),
            final(self).disk_policy.clock() == old(self).disk_policy.clock(),
            final(self).index.clock() == old(self).index.clock(),
            final(self).ledger@.ram_held == old(self).ledger@.ram_held.remove(promotion.target()),
            final(self).ledger@.disk_held == old(self).ledger@.disk_held,
            final(self).ledger@.loose.subset_of(old(self).ledger@.loose),
            final(self).ledger@.parked.subset_of(old(self).ledger@.parked),
            final(self).index@.dom() == old(self).index@.dom(),
            forall|name: u128| #[trigger]
                old(self).index@.dom().contains(name) && name != promotion.name() ==> {
                    &&& final(self).index@[name] == old(self).index@[name]
                    &&& final(self).contents(name) == old(self).contents(name)
                },
            ({
                let before = old(self).index@[promotion.name()];
                let after = final(self).index@[promotion.name()];
                &&& after == (Entry {
                    place: after.place,
                    priority: after.priority,
                    priority_access: after.priority_access,
                    ..before
                })
                &&& after.place is Ram
                &&& after.place.copy() == Some(promotion.source())
                &&& if before.place is Disk {
                    &&& after.place.slot() == Some(SlotId { number: promotion.target() })
                    &&& final(self).contents(promotion.name()) == promotion.staged()
                } else {
                    &&& after.place == before.place
                    &&& final(self).contents(promotion.name()) == old(self).contents(
                        promotion.name(),
                    )
                }
            }),
            final(self).index@[promotion.name()].place.slot() == Some(home),
            home.number < final(self).slab.slots(),
    {
        let hash = promotion.hash;
        let slot: SlotId = promotion.writer.slot();
        let ghost before = *self;
        proof {
            self.slab.lemma_shape();
        }
        let home: Option<SlotId> = match self.index.get(hash) {
            None => None,
            Some(entry) => entry.place.ram(),
        };
        if let Some(home) = home {
            self.let_go(slot);
            proof {
                self.slab.lemma_shape();
                assert(crate::ledger::ram_map(self.index@).dom().contains(hash@));
            }
            return home;
        }
        // Keep the disk copy: the block is instantly clean, so if it gets
        // pushed back out there is nothing to write.

        let disk_slot = promotion.disk_slot;
        proof {
            crate::ledger::lemma_settle(
                crate::ledger::ram_map(before.index@),
                self.ledger@.ram_owner,
                self.ledger@.ram_held,
                self.slab.taken(),
                hash@,
                slot.number,
            );
            self.ledger@.ram_owner = self.ledger@.ram_owner.insert(slot.number, hash@);
            self.ledger@.ram_held = self.ledger@.ram_held.remove(slot.number);
            self.ledger@.image = self.ledger@.image.insert(
                disk_slot.number,
                promotion.writer.staged(),
            );
        }
        self.slab.write(slot, promotion.writer.bytes());
        self.index.set_place(hash, Place::Ram { slot, backing: Some(disk_slot) });
        proof {
            assert(self.index@.dom() =~= before.index@.dom());
            assert(crate::ledger::ram_map(self.index@) =~= crate::ledger::ram_map(
                before.index@,
            ).insert(hash@, slot.number));
            assert(crate::ledger::disk_map(self.index@) =~= crate::ledger::disk_map(before.index@));
            assert forall|name: u128| #[trigger]
                before.index@.dom().contains(name) && name != hash@ implies {
                &&& before.index@[name].place matches Place::Ram { slot: taken, .. } ==> taken.number
                    != slot.number && taken.number < self.slab.slots()
                &&& before.index@[name].place.copy() matches Some(copy) ==> copy.number
                    != disk_slot.number
            } by {
                assert(before.index@[name].place is Ram ==> crate::ledger::ram_map(
                    before.index@,
                ).dom().contains(name));
                assert(before.index@[name].place.copy() is Some ==> crate::ledger::disk_map(
                    before.index@,
                ).dom().contains(name));
                assert(crate::ledger::disk_map(before.index@).dom().contains(hash@));
            }
            let open = self.ledger@.loose.insert(hash@);
            assert forall|name: u128| #[trigger]
                self.index@.dom().contains(name) && is_due(
                        self.index@,
                        open,
                        self.ledger@.parked,
                        name,
                    ) implies {
                if self.index@[name].place is Ram {
                    self.ram_policy@.contains(crate::evict::standing(name, self.index@[name]))
                } else {
                    self.disk_policy@.contains(crate::evict::standing(name, self.index@[name]))
                }
            } by {
                assert(before.index@.dom().contains(name));
            }
            assert forall|name: u128| #[trigger]
                self.index@.dom().contains(name) implies match self.index@[name].place {
                Place::Ram { slot, backing: Some(backing) } => self.slab.bytes_at(slot.number)
                    == self.ledger@.image[backing.number],
                Place::Ram { backing: None, .. } => true,
                Place::Disk(slot) => self.ledger@.image[slot.number].len() == self.slab.width(),
            } by {
                assert(before.index@.dom().contains(name));
            }
        }
        self.reprice(hash);
        proof {
            assert(self.index@ =~= before.index@.insert(hash@, self.index@[hash@]));
            assert(before.publishes(self, promotion));
        }
        slot
    }

    /// A filled promotion becomes the block's new home, held open for reading.
    fn publish(&mut self, promotion: Promotion) -> (block: PinnedBlock)
        requires
            old(self).wf(),
            old(self).awaits(promotion),
        ensures
            final(self).wf(),
            old(self).publishes(final(self), promotion),
            old(self).same_setup(final(self)),
            final(self).stats == old(self).stats,
            final(self).disk == old(self).disk,
            final(self).ram_policy.clock() == old(self).ram_policy.clock(),
            final(self).disk_policy.clock() == old(self).disk_policy.clock(),
            final(self).index.clock() == old(self).index.clock(),
            final(self).ledger@.ram_held == old(self).ledger@.ram_held.remove(promotion.target()),
            final(self).ledger@.disk_held == old(self).ledger@.disk_held,
            final(self).ledger@.loose.subset_of(old(self).ledger@.loose),
            final(self).ledger@.parked.subset_of(old(self).ledger@.parked),
            final(self).index@.dom() == old(self).index@.dom(),
            forall|name: u128| #[trigger]
                old(self).index@.dom().contains(name) && name != promotion.name() ==> {
                    &&& final(self).index@[name] == old(self).index@[name]
                    &&& final(self).contents(name) == old(self).contents(name)
                },
            ({
                let before = old(self).index@[promotion.name()];
                let after = final(self).index@[promotion.name()];
                &&& after == (Entry {
                    place: after.place,
                    priority: after.priority,
                    priority_access: after.priority_access,
                    ..before
                })
                &&& after.place is Ram
                &&& after.place.copy() == Some(promotion.source())
                &&& if before.place is Disk {
                    &&& after.place.slot() == Some(SlotId { number: promotion.target() })
                    &&& final(self).contents(promotion.name()) == promotion.staged()
                } else {
                    &&& after.place == before.place
                    &&& final(self).contents(promotion.name()) == old(self).contents(
                        promotion.name(),
                    )
                }
            }),
            block.name() == promotion.name(),
            block.payload() == final(self).contents(promotion.name()),
    {
        let hash = promotion.hash;
        let home = self.bring_home(promotion);
        self.slab.pinned(hash, home)
    }

    /// Give back what a promotion reserved. The block stays on disk.
    fn abandon(&mut self, promotion: Promotion)
        requires
            old(self).wf(),
            old(self).ledger@.ram_held.contains(promotion.target()),
        ensures
            final(self).wf(),
            old(self).gives_back(final(self), promotion),
            old(self).same_fields(final(self)),
            old(self).same_bytes(final(self)),
            final(self).stats == old(self).stats,
            final(self).disk == old(self).disk,
            final(self).ram_policy == old(self).ram_policy,
            final(self).disk_policy == old(self).disk_policy,
            final(self).index.clock() == old(self).index.clock(),
            final(self).ledger@ == (Ledger {
                ram_held: old(self).ledger@.ram_held.remove(promotion.target()),
                ..old(self).ledger@
            }),
            final(self).slab.stack() == old(self).slab.stack().push(promotion.target()),
            final(self).index@.dom() == old(self).index@.dom(),
            final(self).index@ == (if old(self).index@.dom().contains(promotion.name())
                && old(self).index@[promotion.name()].pins > 0 {
                old(self).index@.insert(
                    promotion.name(),
                    Entry {
                        pins: (old(self).index@[promotion.name()].pins - 1) as u64,
                        ..old(self).index@[promotion.name()]
                    },
                )
            } else {
                old(self).index@
            }),
    {
        self.let_go(promotion.writer.slot());
        self.unpin_block(promotion.hash);
    }

    /// What was read for a block on disk is its home now, next to its copy on
    /// disk, and it has a new priority.
    pub open spec fn brings_home(
        &self,
        promotion: Promotion,
        before: Entry,
        after: Entry,
    ) -> bool {
        &&& before.place is Disk
        &&& after.place == (Place::Ram {
            slot: SlotId { number: promotion.target() },
            backing: Some(promotion.source()),
        })
        &&& after.priority_access == before.last_access
        &&& crate::evict::priced(
            self.pricing(),
            self.ram_inflation(),
            before.depth_tokens,
            after.priority,
        )
    }

    /// Publish whatever the caller managed to fill, and hand back the run.
    ///
    /// Truncates at the first unfilled block: a run with a hole in it is not
    /// a run, and the engine cannot use anything past the gap.
    #[verifier::rlimit(40)]
    #[verifier::spinoff_prover]
    pub fn finish_fetch(&mut self, parts: Vec<FetchPart>) -> (blocks: Vec<PinnedBlock>)
        requires
            old(self).wf(),
            old(self).stands_by(parts@, part_names(parts@)),
        ensures
            final(self).wf(),
            old(self).same_setup(final(self)),
            is_ready_run(parts@, blocks@.len()),
            forall|i: int|
                0 <= i < blocks@.len() ==> match parts@[i] {
                    FetchPart::Ready(block) => #[trigger] blocks@[i] == block,
                    FetchPart::Pending(promotion) => {
                        &&& blocks@[i].name() == promotion.name()
                        &&& blocks@[i].payload() == final(self).contents(promotion.name())
                        &&& final(self).entries()[promotion.name()].place is Ram
                    },
                },
            final(self).entries().dom() == old(self).entries().dom(),
            forall|name: u128| #[trigger]
                old(self).entries().dom().contains(name) ==> {
                    let before = old(self).entries()[name];
                    let after = final(self).entries()[name];
                    &&& after.parent == before.parent
                    &&& after.children == before.children
                    &&& after.depth_tokens == before.depth_tokens
                    &&& after.last_access == before.last_access
                    &&& after.place.copy() == before.place.copy()
                    &&& before.place is Ram ==> after.place == before.place
                    &&& after.place == before.place ==> after.priority == before.priority
                        && after.priority_access == before.priority_access
                    &&& after.place != before.place ==> exists|i: int, promotion: Promotion|
                        #[trigger]
                        is_first_read(parts@, blocks@.len(), i, promotion) && promotion.name()
                            == name && old(self).brings_home(promotion, before, after)
                },
            // What was read first is what the block holds; no other block
            // has changed.
            forall|i: int, promotion: Promotion| #[trigger]
                is_first_read(parts@, blocks@.len(), i, promotion) && old(
                    self).entries()[promotion.name()].place is Disk ==> final(self).contents(
                    promotion.name(),
                ) == promotion.staged(),
            forall|name: u128| #[trigger]
                old(self).entries().dom().contains(name) ==> {
                    ||| final(self).contents(name) == old(self).contents(name)
                    ||| exists|i: int, promotion: Promotion| #[trigger]
                        is_first_read(parts@, blocks@.len(), i, promotion) && promotion.name()
                            == name && old(self).entries()[name].place is Disk && final(
                            self).contents(name) == promotion.staged()
                },
            forall|name: u128|
                #![trigger final(self).pins_of(name)]
                final(self).pins_of(name) + occurrences(part_names(parts@), name) == old(
                    self).pins_of(name) + occurrences(pinned_names(blocks@), name),
            final(self).reserved() == old(self).reserved().difference(part_slots(parts@)),
            final(self).reserved_on_disk() == old(self).reserved_on_disk(),
            final(self).withheld().subset_of(old(self).withheld()),
            final(self).passed_over().subset_of(old(self).passed_over()),
            final(self).ram_inflation() == old(self).ram_inflation(),
            final(self).disk_inflation() == old(self).disk_inflation(),
            final(self).clock() == old(self).clock(),
            final(self).counters() == (Stats {
                promoted_blocks: crate::tier::raised(
                    old(self).counters().promoted_blocks,
                    reads_in(parts@, blocks@.len()) as int,
                ),
                ..old(self).counters()
            }),
            final(self).moved() == (match old(self).moved() {
                None => None,
                Some(moved) => Some(
                    DiskStats {
                        reads: crate::tier::raised(
                            moved.reads,
                            reads_in(parts@, blocks@.len()) as int,
                        ),
                        bytes_read: crate::tier::raised(
                            moved.bytes_read,
                            crate::tier::raised(
                                0,
                                reads_in(parts@, blocks@.len()) * old(self).shape().size(),
                            ) as int,
                        ),
                        ..moved
                    },
                ),
            }),
    {
        let ghost all = parts@;
        let mut pinned: Vec<PinnedBlock> = Vec::new();
        let mut truncated: bool = false;
        let mut reads: u64 = 0;
        let mut bytes: u64 = 0;
        let block_bytes: usize = self.slab.block_bytes();
        let total: usize = parts.len();
        proof {
            assert(part_names(all.take(0)) =~= Seq::<u128>::empty());
            assert(pinned_names(pinned@) =~= Seq::<u128>::empty());
            assert(self.ledger@.ram_held =~= self.ledger@.ram_held.difference(
                part_slots(all.take(0)),
            ));
            assert forall|i: int| 0 <= i < all.len() implies {
                (#[trigger] all[i]) matches FetchPart::Pending(promotion)
                    ==> self.ledger@.ram_held.contains(promotion.target())
            } by {}
        }
        for part in walk: parts
            invariant
                walk.seq() == all,
                total == all.len(),
                self.wf(),
                old(self).wf(),
                old(self).same_setup(self),
                old(self).stands_by(all, part_names(all)),
                self.stats == old(self).stats,
                self.disk == old(self).disk,
                block_bytes == self.slab.width(),
                self.ram_policy.clock() == old(self).ram_policy.clock(),
                self.disk_policy.clock() == old(self).disk_policy.clock(),
                self.index.clock() == old(self).index.clock(),
                self.ledger@.disk_held == old(self).ledger@.disk_held,
                self.ledger@.loose.subset_of(old(self).ledger@.loose),
                self.ledger@.parked.subset_of(old(self).ledger@.parked),
                // How far the run goes.
                pinned@.len() <= walk.index() <= all.len(),
                !truncated ==> pinned@.len() == walk.index(),
                truncated ==> pinned@.len() < walk.index() && !all[pinned@.len() as int].is_ready(),
                forall|i: int| 0 <= i < pinned@.len() ==> (#[trigger] all[i]).is_ready(),
                reads == reads_in(all, pinned@.len()),
                bytes == crate::tier::raised(0, reads * block_bytes),
                reads <= pinned@.len(),
                // What the blocks are now.
                self.index@.dom() == old(self).index@.dom(),
                forall|name: u128| #[trigger]
                    old(self).index@.dom().contains(name) ==> {
                        let before = old(self).index@[name];
                        let after = self.index@[name];
                        &&& after.parent == before.parent
                        &&& after.children == before.children
                        &&& after.depth_tokens == before.depth_tokens
                        &&& after.last_access == before.last_access
                        &&& after.place.copy() == before.place.copy()
                        &&& before.place is Ram ==> after.place == before.place
                        &&& after.place == before.place ==> after.priority == before.priority
                            && after.priority_access == before.priority_access
                        &&& after.place != before.place ==> exists|i: int, promotion: Promotion|
                            #[trigger]
                            is_first_read(all, pinned@.len(), i, promotion) && promotion.name()
                                == name && old(self).brings_home(promotion, before, after)
                        &&& (forall|i: int|
                            0 <= i < pinned@.len() ==> !#[trigger] reads_name(all, i, name))
                            ==> after.place == before.place && self.contents(name) == old(
                            self).contents(name)
                    },
                forall|i: int|
                    0 <= i < pinned@.len() ==> match all[i] {
                        FetchPart::Ready(block) => #[trigger] pinned@[i] == block,
                        FetchPart::Pending(promotion) => {
                            &&& pinned@[i].name() == promotion.name()
                            &&& pinned@[i].payload() == self.contents(promotion.name())
                            &&& self.index@[promotion.name()].place is Ram
                        },
                    },
                forall|i: int, promotion: Promotion| #[trigger]
                    is_first_read(all, pinned@.len(), i, promotion) && old(
                        self).index@[promotion.name()].place is Disk ==> self.contents(
                        promotion.name(),
                    ) == promotion.staged(),
                forall|name: u128| #[trigger]
                    old(self).index@.dom().contains(name) ==> {
                        ||| self.contents(name) == old(self).contents(name)
                        ||| exists|i: int, promotion: Promotion| #[trigger]
                            is_first_read(all, pinned@.len(), i, promotion) && promotion.name()
                                == name && old(self).index@[name].place is Disk
                                && self.contents(name) == promotion.staged()
                    },
                // What is still owed.
                forall|name: u128|
                    #![trigger self.pins_of(name)]
                    self.pins_of(name) + occurrences(part_names(all.take(walk.index())), name)
                        == old(self).pins_of(name) + occurrences(pinned_names(pinned@), name),
                forall|i: int|
                    walk.index() <= i < all.len() ==> {
                        (#[trigger] all[i]) matches FetchPart::Pending(promotion)
                            ==> self.ledger@.ram_held.contains(promotion.target())
                    },
                self.ledger@.ram_held == old(self).ledger@.ram_held.difference(
                    part_slots(all.take(walk.index())),
                ),
        {
            let ghost i = walk.index();
            let ghost before = *self;
            let ghost done = pinned@;
            proof {
                let now = all.take(i + 1);
                assert(now.drop_last() =~= all.take(i));
                assert(part_names(now) =~= part_names(all.take(i)).push(part.name()));
                lemma_occurs_once_more(part_names(all.take(i)), part.name());
                assert(part_names(all)[i] == part.name());
                assert(part_names(all).take(i + 1) =~= part_names(now));
                lemma_occurs_in_part(part_names(all), i + 1, part.name());
                assert(old(self).pins_of(part.name()) >= occurrences(
                    part_names(all),
                    part.name(),
                ));
                assert(self.pins_of(part.name()) > 0);
                assert(all[i] == part);
            }
            match part {
                FetchPart::Ready(block) => {
                    if truncated {
                        self.unpin_block(block.hash());
                    } else {
                        proof {
                            lemma_occurs_once_more(pinned_names(done), block.name());
                            assert(pinned_names(done.push(block)) =~= pinned_names(done).push(
                                block.name(),
                            ));
                        }
                        pinned.push(block);
                    }
                },
                FetchPart::Pending(promotion) => {
                    proof {
                        assert(self.awaits(promotion));
                    }
                    if truncated || !promotion.filled {
                        self.abandon(promotion);
                        truncated = true;
                    } else {
                        assert((reads + 1) * block_bytes == reads * block_bytes + block_bytes)
                            by (nonlinear_arith);
                        reads = reads + 1;
                        bytes = bytes.saturating_add(block_bytes as u64);
                        let block = self.publish(promotion);
                        proof {
                            lemma_occurs_once_more(pinned_names(done), block.name());
                            assert(pinned_names(done.push(block)) =~= pinned_names(done).push(
                                block.name(),
                            ));
                        }
                        pinned.push(block);
                    }
                },
            }
            proof {
                let (so_far, by_now) = (done.len(), pinned@.len());
                // A block that an earlier part read is in memory, so it stays.
                assert forall|j: int, read: Promotion| #[trigger]
                    is_first_read(all, by_now, j, read) && j < so_far implies {
                    &&& is_first_read(all, so_far, j, read)
                    &&& before.index@[read.name()].place is Ram
                    &&& self.contents(read.name()) == before.contents(read.name())
                } by {
                    assert(is_first_read(all, so_far, j, read));
                    assert(done[j].name() == read.name());
                    assert(old(self).awaits(read));
                    assert(old(self).index@.dom().contains(read.name()));
                }
                assert forall|j: int, read: Promotion|
                    is_first_read(all, so_far, j, read) implies #[trigger] is_first_read(
                    all,
                    by_now,
                    j,
                    read,
                ) by {}
                assert forall|name: u128| #[trigger]
                    old(self).index@.dom().contains(name) && (forall|j: int|
                        0 <= j < by_now ==> !#[trigger] reads_name(all, j, name)) implies {
                    &&& self.index@[name].place == old(self).index@[name].place
                    &&& self.contents(name) == old(self).contents(name)
                } by {
                    assert(forall|j: int|
                        0 <= j < so_far ==> !#[trigger] reads_name(all, j, name));
                    if by_now > so_far {
                        assert(!reads_name(all, so_far as int, name));
                    }
                }
                assert forall|j: int, read: Promotion| #[trigger]
                    is_first_read(all, by_now, j, read) && old(self).index@[read.name()].place
                        is Disk implies self.contents(read.name()) == read.staged() by {
                    assert(old(self).awaits(read));
                    assert(old(self).index@.dom().contains(read.name()));
                    if j >= so_far {
                        assert(forall|l: int|
                            0 <= l < so_far ==> !#[trigger] reads_name(all, l, read.name()));
                        assert(before.index@[read.name()].place is Disk);
                    }
                }
                assert forall|name: u128| #[trigger]
                    old(self).index@.dom().contains(name) && self.index@[name].place != old(
                        self).index@[name].place implies exists|j: int, read: Promotion|
                    #[trigger]
                    is_first_read(all, by_now, j, read) && read.name() == name && old(
                        self).brings_home(read, old(self).index@[name], self.index@[name]) by {
                    if before.index@[name].place == old(self).index@[name].place {
                        let read = all[i]->Pending_0;
                        assert(reads_name(all, i, name));
                        assert(is_first_read(all, by_now, i, read)) by {
                            assert forall|l: int| 0 <= l < i implies !#[trigger] reads_name(
                                all,
                                l,
                                name,
                            ) by {
                                if reads_name(all, l, name) {
                                    assert(done[l].name() == name);
                                }
                            }
                        }
                        assert(old(self).brings_home(
                            read,
                            old(self).index@[name],
                            self.index@[name],
                        ));
                    } else {
                        let (j, read) = choose|j: int, read: Promotion| #[trigger]
                            is_first_read(all, so_far, j, read) && read.name() == name && old(
                                self).brings_home(
                                read,
                                old(self).index@[name],
                                before.index@[name],
                            );
                        assert(is_first_read(all, by_now, j, read));
                    }
                }
                assert forall|name: u128| #[trigger] old(self).index@.dom().contains(name) implies {
                    ||| self.contents(name) == old(self).contents(name)
                    ||| exists|j: int, read: Promotion| #[trigger]
                        is_first_read(all, by_now, j, read) && read.name() == name && old(
                            self).index@[name].place is Disk && self.contents(name)
                            == read.staged()
                } by {
                    if self.contents(name) != before.contents(name) {
                        let read = all[i]->Pending_0;
                        assert(reads_name(all, i, name));
                        assert(is_first_read(all, by_now, i, read)) by {
                            assert forall|l: int| 0 <= l < i implies !#[trigger] reads_name(
                                all,
                                l,
                                name,
                            ) by {
                                if reads_name(all, l, name) {
                                    assert(done[l].name() == name);
                                }
                            }
                        }
                    } else if self.contents(name) != old(self).contents(name) {
                        let (j, read) = choose|j: int, read: Promotion| #[trigger]
                            is_first_read(all, so_far, j, read) && read.name() == name && old(
                                self).index@[name].place is Disk && before.contents(name)
                                == read.staged();
                        assert(is_first_read(all, by_now, j, read));
                    }
                }
                assert forall|j: int| 0 <= j < by_now implies match all[j] {
                    FetchPart::Ready(block) => #[trigger] pinned@[j] == block,
                    FetchPart::Pending(read) => {
                        &&& pinned@[j].name() == read.name()
                        &&& pinned@[j].payload() == self.contents(read.name())
                        &&& self.index@[read.name()].place is Ram
                    },
                } by {
                    if j < so_far {
                        assert(pinned@[j] == done[j]);
                        if let FetchPart::Pending(read) = all[j] {
                            assert(old(self).awaits(read));
                            assert(old(self).index@.dom().contains(read.name()));
                            assert(before.index@.dom().contains(read.name()));
                            assert(before.index@[read.name()].place is Ram);
                        }
                    }
                }
            }
            proof {
                assert forall|name: u128|
                    #![trigger self.pins_of(name)]
                    self.pins_of(name) + occurrences(part_names(all.take(i + 1)), name) == old(
                        self).pins_of(name) + occurrences(pinned_names(pinned@), name) by {
                    assert(before.pins_of(name) + occurrences(part_names(all.take(i)), name) == old(
                        self).pins_of(name) + occurrences(pinned_names(done), name));
                    if before.index@.dom().contains(name) {
                        assert(old(self).index@.dom().contains(name));
                    }
                }
            }
        }
        let ghost ended = *self;
        if let Some(disk) = &mut self.disk {
            disk.note_reads(reads, bytes);
        }
        self.stats.promoted_blocks = self.stats.promoted_blocks.saturating_add(reads);
        proof {
            assert(all.take(all.len() as int) =~= all);
            assert forall|name: u128|
                #![trigger self.pins_of(name)]
                self.pins_of(name) + occurrences(part_names(all), name) == old(self).pins_of(name)
                    + occurrences(pinned_names(pinned@), name) by {
                assert(self.pins_of(name) == ended.pins_of(name));
            }
        }
        pinned
    }

    /// A run that the store stands by: every block is pinned as often as it
    /// occurs, those held open are in memory, and the one that is being read
    /// is where it was and has a slot to be read into.
    pub open spec fn stands_by_run(&self, run: PinRun, hashes: Seq<BlockHash>) -> bool {
        &&& forall|name: u128|
            #![trigger occurrences(pinned_names(run.blocks()), name)]
            #![trigger self.pins_of(name)]
            self.pins_of(name) >= occurrences(pinned_names(run.blocks()), name)
        &&& run.blocks().len() <= hashes.len()
        &&& run.reading() matches Some(promotion) ==> {
            &&& run.blocks().len() < hashes.len()
            &&& self.awaits(promotion)
            &&& promotion.name() == hashes[run.blocks().len() as int]@
        }
        &&& forall|i: int|
            0 <= i < run.blocks().len() ==> {
                let block = #[trigger] run.blocks()[i];
                &&& block.name() == hashes[i]@
                &&& self.entries()[block.name()].place is Ram
                &&& block.payload() == self.contents(block.name())
            }
    }

    /// A slot that was held for a block on disk is free again, and that is all.
    pub open spec fn puts_back(&self, after: &Self, slot: u32) -> bool {
        &&& self.same_setup(after)
        &&& after.entries() == self.entries()
        &&& forall|name: u128| #[trigger]
            self.entries().dom().contains(name) ==> after.contents(name) == self.contents(name)
        &&& after.clock() == self.clock()
        &&& after.free_slots() == self.free_slots() + 1
        &&& after.free_disk_slots() == self.free_disk_slots()
        &&& after.moved() == self.moved()
        &&& after.counters() == self.counters()
        &&& after.reserved() == self.reserved().remove(slot)
        &&& after.reserved_on_disk() == self.reserved_on_disk()
        &&& after.withheld() == self.withheld()
        &&& after.passed_over() == self.passed_over()
        &&& after.ram_inflation() == self.ram_inflation()
        &&& after.disk_inflation() == self.disk_inflation()
    }

    /// What becomes of the block that a run was reading: it is home if it was
    /// filled, and if not only its slot is given back.
    pub open spec fn finishes_read(&self, after: &Self, run: PinRun) -> bool {
        match run.reading() {
            None => *after == *self,
            Some(promotion) => if promotion.is_filled() {
                &&& self.publishes(after, promotion)
                &&& after.counters() == (Stats {
                    promoted_blocks: crate::tier::raised(self.counters().promoted_blocks, 1),
                    ..self.counters()
                })
                &&& after.moved() == Some(
                    DiskStats {
                        reads: crate::tier::raised(self.moved()->0.reads, 1),
                        bytes_read: crate::tier::raised(
                            self.moved()->0.bytes_read,
                            self.shape().size(),
                        ),
                        ..self.moved()->0
                    },
                )
            } else {
                self.puts_back(after, promotion.target())
            },
        }
    }

    /// What reaching for one block does. One in memory is held open and counts
    /// as used; one on disk gets memory to be read into, and is neither held
    /// open nor used until it is home.
    #[verifier::opaque]
    pub open spec fn reaches(&self, after: &Self, hash: BlockHash, opened: Opened) -> bool {
        if self.entries().dom().contains(hash@) && self.entries()[hash@].place is Disk {
            match opened {
                Opened::Ready(_) => false,
                Opened::Pending(promotion) => self.sets_aside(after, hash, promotion),
                Opened::Gap => {
                    &&& self.has_no_room(after.passed_over(), Some(hash))
                    &&& self.same_state(after)
                    &&& after.counters() == self.counters()
                },
                Opened::Demote(demotion) => self.has_to_demote(after, Some(hash), demotion),
            }
        } else if self.entries().dom().contains(hash@) && self.entries()[hash@].pins < u64::MAX {
            &&& opened matches Opened::Ready(block) && block.name() == hash@ && block.payload()
                == self.contents(hash@)
            &&& self.holds(after, hash)
        } else {
            &&& opened is Gap
            &&& self.same_state(after)
            &&& after.passed_over() == self.passed_over()
            &&& after.counters() == self.counters()
        }
    }

    /// Each step leads from one store of the trace to the next: it reaches for
    /// a block of the run, from `first` on.
    #[verifier::opaque]
    pub open spec fn is_reaching(
        trace: Seq<Self>,
        opened: Seq<Opened>,
        hashes: Seq<BlockHash>,
        first: int,
    ) -> bool {
        &&& trace.len() == opened.len() + 1
        &&& forall|k: int|
            0 <= k < opened.len() ==> trace[k].reaches(
                &trace[k + 1],
                hashes[first + k],
                #[trigger] opened[k],
            )
    }

    /// One more block may be reached for.
    proof fn lemma_reaching_goes_on(
        trace: Seq<Self>,
        opened: Seq<Opened>,
        hashes: Seq<BlockHash>,
        first: int,
        next: Self,
        last: Opened,
    )
        requires
            Self::is_reaching(trace, opened, hashes, first),
            trace.last().reaches(&next, hashes[first + opened.len()], last),
        ensures
            Self::is_reaching(trace.push(next), opened.push(last), hashes, first),
    {
        reveal(KvStore::is_reaching);
        let longer = trace.push(next);
        assert forall|k: int| 0 <= k < opened.len() + 1 implies longer[k].reaches(
            &longer[k + 1],
            hashes[first + k],
            #[trigger] opened.push(last)[k],
        ) by {
            if k < opened.len() {
                assert(opened.push(last)[k] == opened[k]);
                assert(longer[k] == trace[k] && longer[k + 1] == trace[k + 1]);
            } else {
                assert(longer[k] == trace.last());
            }
        }
    }

    /// The blocks of a run are reached for in turn, from here on.
    pub open spec fn reaches_run(
        &self,
        hashes: Seq<BlockHash>,
        first: int,
        trace: Seq<Self>,
        opened: Seq<Opened>,
    ) -> bool {
        &&& Self::is_reaching(trace, opened, hashes, first)
        &&& trace.len() == opened.len() + 1
        &&& trace[0] == *self
        &&& first + opened.len() <= hashes.len()
    }

    /// Reach for a block: hold it open if it is in memory, else find memory
    /// for it to be read into.
    fn reach_block(&mut self, hash: BlockHash) -> (opened: Opened)
        requires
            old(self).wf(),
        ensures
            final(self).wf(),
            old(self).reaches(final(self), hash, opened),
            old(self).same_setup(final(self)),
            final(self).stats.lookups == old(self).stats.lookups,
            final(self).stats.queried_blocks == old(self).stats.queried_blocks,
            final(self).stats.hit_blocks == old(self).stats.hit_blocks,
            final(self).stats.promoted_blocks == old(self).stats.promoted_blocks,
            final(self).moved() == old(self).moved(),
            final(self).ram_policy.clock() >= old(self).ram_policy.clock(),
            final(self).disk_policy.clock() >= old(self).disk_policy.clock(),
            forall|name: u128| #[trigger]
                final(self).index@.dom().contains(name) ==> {
                    &&& old(self).remembers(final(self), name)
                    &&& final(self).index@[name].pins == old(self).index@[name].pins + if opened
                        is Ready && name == hash@ {
                        1int
                    } else {
                        0
                    }
                },
            forall|name: u128| #[trigger]
                old(self).index@.dom().contains(name) && old(self).index@[name].pins > 0 ==> {
                    &&& final(self).index@.dom().contains(name)
                    &&& final(self).index@[name].place == old(self).index@[name].place
                },
            match opened {
                Opened::Ready(block) => {
                    &&& block.name() == hash@
                    &&& final(self).index@.dom().contains(hash@)
                    &&& final(self).index@[hash@].place is Ram
                    &&& block.payload() == final(self).contents(hash@)
                    &&& final(self).ledger@.ram_held == old(self).ledger@.ram_held
                    &&& final(self).ledger@.disk_held == old(self).ledger@.disk_held
                    &&& final(self).ledger@.loose.subset_of(old(self).ledger@.loose)
                },
                Opened::Pending(promotion) => {
                    &&& promotion.name() == hash@
                    &&& !promotion.is_filled()
                    &&& final(self).index@.dom().contains(hash@)
                    &&& final(self).index@[hash@].place == Place::Disk(promotion.source())
                    &&& final(self).awaits(promotion)
                    &&& !old(self).ledger@.ram_held.contains(promotion.target())
                    &&& final(self).ledger@.ram_held == old(self).ledger@.ram_held.insert(
                        promotion.target(),
                    )
                    &&& final(self).ledger@.disk_held == old(self).ledger@.disk_held
                    &&& final(self).ledger@.loose.subset_of(old(self).ledger@.loose)
                },
                Opened::Gap => {
                    &&& final(self).index@ == old(self).index@
                    &&& final(self).ledger@.ram_held == old(self).ledger@.ram_held
                    &&& final(self).ledger@.disk_held == old(self).ledger@.disk_held
                    &&& final(self).ledger@.loose == old(self).ledger@.loose
                    &&& old(self).index@.dom().contains(hash@) ==> old(self).index@[hash@].pins
                        == u64::MAX || {
                        &&& old(self).index@[hash@].place is Disk
                        &&& final(self).free_slots() == 0
                        &&& forall|name: u128| #[trigger]
                            is_spare(old(self).index@, Some(hash), name)
                                ==> old(self).ledger@.loose.contains(name)
                    }
                },
                Opened::Demote(demotion) => {
                    &&& final(self).index@.dom().contains(hash@)
                    &&& final(self).honors(demotion)
                    &&& demotion.name() != hash@
                    &&& demotion.payload() == final(self).contents(demotion.name())
                    &&& final(self).ledger@.ram_held == old(self).ledger@.ram_held
                    &&& !old(self).ledger@.disk_held.contains(demotion.target().number)
                    &&& final(self).ledger@.disk_held == old(self).ledger@.disk_held.insert(
                        demotion.target().number,
                    )
                    &&& final(self).ledger@.loose.subset_of(
                        if demotion.is_leaf() {
                            old(self).ledger@.loose.insert(demotion.name())
                        } else {
                            old(self).ledger@.loose
                        },
                    )
                },
            },
    {
        proof {
            reveal(KvStore::reaches);
        }
        let place: Place = match self.index.get(hash) {
            None => {
                return Opened::Gap;
            },
            Some(entry) => entry.place,
        };
        match place {
            Place::Ram { slot, .. } => {
                if self.pin_block(hash).is_none() {
                    return Opened::Gap;
                }
                proof {
                    self.slab.lemma_shape();
                    assert(crate::ledger::ram_map(self.index@).dom().contains(hash@));
                }
                Opened::Ready(self.slab.pinned(hash, slot))
            },
            Place::Disk(disk_slot) => {
                let opened = self.find_memory(hash, disk_slot);
                proof {
                    if opened is Gap {
                        assert forall|name: u128| #[trigger]
                            is_spare(old(self).index@, Some(hash), name) implies old(self).ledger@.loose.contains(name) by {
                            assert(is_idle(old(self).index@, Some(hash), name));
                        }
                    }
                }
                opened
            },
        }
    }

    /// What holding a run open does: the block that was being read is dealt
    /// with, then block after block is reached for until one has to be read or
    /// demoted first, or the run ends.
    pub open spec fn pins_run(
        &self,
        after: &Self,
        hashes: Seq<BlockHash>,
        run: PinRun,
        step: PinStep,
    ) -> bool {
        let first = run.blocks().len() as int;
        exists|started: Self, trace: Seq<Self>, opened: Seq<Opened>|
            {
                &&& self.finishes_read(&started, run)
                &&& #[trigger] started.reaches_run(hashes, first, trace, opened)
                &&& match step {
                    PinStep::Done(blocks) => {
                        let got = blocks@.len() - first;
                        &&& is_ready_part_run(opened, blocks@, first, got)
                        &&& if run.is_broken() {
                            opened.len() == 0
                        } else if opened.len() == got {
                            blocks@.len() == hashes.len()
                        } else {
                            opened.len() == got + 1 && opened.last() is Gap
                        }
                        &&& trace.last().counts_lookup(after, hashes.len(), blocks@.len())
                    },
                    PinStep::Demote(demotion, next) => {
                        let got = next.blocks().len() - first;
                        &&& is_ready_part_run(opened, next.blocks(), first, got)
                        &&& opened.len() == got + 1
                        &&& opened.last() == Opened::Demote(demotion)
                        &&& trace.last() == *after
                    },
                    PinStep::Read(next) => {
                        let got = next.blocks().len() - first;
                        &&& is_ready_part_run(opened, next.blocks(), first, got)
                        &&& opened.len() == got + 1
                        &&& next.reading() matches Some(promotion) && opened.last()
                            == Opened::Pending(promotion)
                        &&& trace.last() == *after
                    },
                }
            }
    }

    /// Hold the resident leading run of `hashes` open for reading.
    ///
    /// The returned guards outlive this borrow, so the server can drop the
    /// store lock and spend the whole socket write unlocked. Every guard must
    /// come back to `unpin_all`, including on an error path -- a lost pin
    /// makes its block permanently unevictable.
    #[verifier::rlimit(40)]
    #[verifier::spinoff_prover]
    pub fn pin_run(&mut self, hashes: &[BlockHash], run: PinRun) -> (step: PinStep)
        requires
            old(self).wf(),
            old(self).stands_by_run(run, hashes@),
        ensures
            final(self).wf(),
            old(self).pins_run(final(self), hashes@, run, step),
            old(self).same_setup(final(self)),
            forall|name: u128| #[trigger]
                final(self).entries().dom().contains(name) ==> {
                    &&& old(self).entries().dom().contains(name)
                    &&& final(self).entries()[name].parent == old(self).entries()[name].parent
                    &&& final(self).entries()[name].depth_tokens == old(
                        self).entries()[name].depth_tokens
                    &&& final(self).contents(name) == (if run.reading() is Some
                        && run.reading()->0.is_filled() && run.reading()->0.name() == name && old(
                        self).entries()[name].place is Disk {
                        run.reading()->0.staged()
                    } else {
                        old(self).contents(name)
                    })
                },
            forall|name: u128| #[trigger]
                old(self).entries().dom().contains(name) && old(self).entries()[name].pins > 0
                    ==> {
                    &&& final(self).entries().dom().contains(name)
                    &&& old(self).entries()[name].place is Ram ==> final(
                        self).entries()[name].place == old(self).entries()[name].place
                    &&& final(self).entries()[name].place.copy() == old(
                        self).entries()[name].place.copy()
                },
            final(self).ram_inflation() >= old(self).ram_inflation(),
            final(self).disk_inflation() >= old(self).disk_inflation(),
            final(self).counters().promoted_blocks == (if run.reading() is Some
                && run.reading()->0.is_filled() {
                crate::tier::raised(old(self).counters().promoted_blocks, 1)
            } else {
                old(self).counters().promoted_blocks
            }),
            final(self).moved() == (if run.reading() is Some && run.reading()->0.is_filled() {
                Some(
                    DiskStats {
                        reads: crate::tier::raised(old(self).moved()->0.reads, 1),
                        bytes_read: crate::tier::raised(
                            old(self).moved()->0.bytes_read,
                            old(self).shape().size(),
                        ),
                        ..old(self).moved()->0
                    },
                )
            } else {
                old(self).moved()
            }),
            match step {
                PinStep::Done(blocks) => {
                    &&& run.blocks().len() <= blocks@.len() <= hashes@.len()
                    &&& blocks@.take(run.blocks().len() as int) == run.blocks()
                    &&& forall|i: int|
                        0 <= i < blocks@.len() ==> {
                            &&& (#[trigger] blocks@[i]).name() == hashes@[i]@
                            &&& blocks@[i].payload() == final(self).contents(blocks@[i].name())
                        }
                    &&& forall|name: u128|
                        #![trigger final(self).pins_of(name)]
                        final(self).pins_of(name) + occurrences(pinned_names(run.blocks()), name) == old(
                            self).pins_of(name) + occurrences(pinned_names(blocks@), name)
                    &&& final(self).reserved() == (match run.reading() {
                        Some(promotion) => old(self).reserved().remove(promotion.target()),
                        None => old(self).reserved(),
                    })
                    &&& final(self).reserved_on_disk() == old(self).reserved_on_disk()
                    &&& final(self).withheld().subset_of(old(self).withheld())
                    &&& blocks@.len() < hashes@.len() ==> {
                        let name = hashes@[blocks@.len() as int]@;
                        ||| run.reading() is Some && !run.reading()->0.is_filled()
                        ||| !final(self).entries().dom().contains(name)
                        ||| final(self).entries()[name].pins == u64::MAX
                        ||| {
                            &&& final(self).entries()[name].place is Disk
                            &&& final(self).free_slots() == 0
                            &&& forall|other: u128| #[trigger]
                                is_spare(
                                    final(self).entries(),
                                    Some(hashes@[blocks@.len() as int]),
                                    other,
                                ) ==> old(self).withheld().contains(other)
                        }
                    }
                    &&& final(self).counters().lookups == crate::tier::raised(
                        old(self).counters().lookups,
                        1,
                    )
                    &&& final(self).counters().queried_blocks == crate::tier::raised(
                        old(self).counters().queried_blocks,
                        hashes@.len() as int,
                    )
                    &&& final(self).counters().hit_blocks == crate::tier::raised(
                        old(self).counters().hit_blocks,
                        blocks@.len() as int,
                    )
                },
                PinStep::Demote(demotion, next) => {
                    &&& next.reading() is None
                    &&& run.blocks().len() <= next.blocks().len()
                    &&& next.blocks().take(run.blocks().len() as int) == run.blocks()
                    &&& final(self).stands_by_run(next, hashes@)
                    &&& forall|name: u128|
                        #![trigger final(self).pins_of(name)]
                        final(self).pins_of(name) + occurrences(pinned_names(run.blocks()), name) == old(
                            self).pins_of(name) + occurrences(pinned_names(next.blocks()), name)
                    &&& final(self).reserved() == (match run.reading() {
                        Some(promotion) => old(self).reserved().remove(promotion.target()),
                        None => old(self).reserved(),
                    })
                    &&& final(self).honors(demotion)
                    &&& demotion.payload() == final(self).contents(demotion.name())
                    &&& !old(self).reserved_on_disk().contains(demotion.target().number)
                    &&& final(self).reserved_on_disk() == old(self).reserved_on_disk().insert(
                        demotion.target().number,
                    )
                    &&& final(self).withheld().subset_of(
                        if demotion.is_leaf() {
                            old(self).withheld().insert(demotion.name())
                        } else {
                            old(self).withheld()
                        },
                    )
                    &&& final(self).counters().lookups == old(self).counters().lookups
                    &&& final(self).counters().queried_blocks == old(
                        self).counters().queried_blocks
                    &&& final(self).counters().hit_blocks == old(self).counters().hit_blocks
                },
                PinStep::Read(next) => {
                    &&& next.reading() matches Some(promotion) && {
                        &&& !promotion.is_filled()
                        &&& final(self).entries()[promotion.name()].place == Place::Disk(
                            promotion.source(),
                        )
                        &&& !(match run.reading() {
                            Some(last) => old(self).reserved().remove(last.target()),
                            None => old(self).reserved(),
                        }).contains(promotion.target())
                        &&& final(self).reserved() == (match run.reading() {
                            Some(last) => old(self).reserved().remove(last.target()),
                            None => old(self).reserved(),
                        }).insert(promotion.target())
                    }
                    &&& run.blocks().len() <= next.blocks().len()
                    &&& next.blocks().take(run.blocks().len() as int) == run.blocks()
                    &&& final(self).stands_by_run(next, hashes@)
                    &&& forall|name: u128|
                        #![trigger final(self).pins_of(name)]
                        final(self).pins_of(name) + occurrences(pinned_names(run.blocks()), name) == old(
                            self).pins_of(name) + occurrences(pinned_names(next.blocks()), name)
                    &&& final(self).reserved_on_disk() == old(self).reserved_on_disk()
                    &&& final(self).withheld().subset_of(old(self).withheld())
                    &&& final(self).counters().lookups == old(self).counters().lookups
                    &&& final(self).counters().queried_blocks == old(
                        self).counters().queried_blocks
                    &&& final(self).counters().hit_blocks == old(self).counters().hit_blocks
                },
            },
    {
        let ghost first = pinned_names(run.blocks());
        let ghost begun = run.blocks@;
        let ghost read = run.reading;
        let mut blocks: Vec<PinnedBlock> = run.blocks;
        let mut ended: bool = false;
        proof {
            assert(blocks@.take(begun.len() as int) =~= begun);
            assert forall|i: int| 0 <= i < begun.len() implies self.index@.dom().contains(
                (#[trigger] begun[i]).name(),
            ) && self.index@[begun[i].name()].pins > 0 by {
                assert(first[i] == begun[i].name());
                lemma_occurs(first, i);
                assert(self.pins_of(begun[i].name()) >= occurrences(first, begun[i].name()));
            }
            if let Some(promotion) = read {
                assert(crate::ledger::disk_map(self.index@).dom().contains(promotion.name()));
            }
        }
        if let Some(promotion) = run.reading {
            if promotion.filled {
                let _ = self.bring_home(promotion);
                let bytes: usize = self.slab.block_bytes();
                if let Some(disk) = &mut self.disk {
                    disk.note_reads(1, bytes as u64);
                }
                self.stats.promoted_blocks = self.stats.promoted_blocks.saturating_add(1);
            } else {
                self.let_go(promotion.writer.slot());
                ended = true;
            }
        }
        let ghost started = *self;
        let ghost from = blocks@.len() as int;
        let ghost mut trace: Seq<Self> = seq![*self];
        let ghost mut opens: Seq<Opened> = Seq::empty();
        proof {
            assert(old(self).finishes_read(&started, run));
            assert(Self::is_reaching(trace, opens, hashes@, from)) by {
                reveal(KvStore::is_reaching);
            }
            assert forall|name: u128|
                #![trigger self.pins_of(name)]
                self.pins_of(name) + occurrences(first, name) == old(self).pins_of(name)
                    + occurrences(pinned_names(blocks@), name) by {
                assert(old(self).pins_of(name) >= occurrences(first, name));
                if old(self).index@.dom().contains(name) {
                    assert(self.index@.dom().contains(name));
                }
            }
            assert forall|i: int| 0 <= i < blocks@.len() implies {
                let block = #[trigger] blocks@[i];
                &&& block.name() == hashes@[i]@
                &&& self.index@.dom().contains(block.name())
                &&& self.index@[block.name()].pins > 0
                &&& self.index@[block.name()].place is Ram
                &&& block.payload() == self.contents(block.name())
            } by {
                let name = blocks@[i].name();
                let held = pinned_names(blocks@);
                assert(held[i] == name);
                lemma_occurs(held, i);
                assert(old(self).pins_of(name) >= occurrences(first, name));
                assert(self.pins_of(name) > 0);
                if i < begun.len() {
                    assert(blocks@[i] == begun[i]);
                    assert(old(self).index@.dom().contains(name));
                }
            }
        }
        while !ended && blocks.len() < hashes.len()
            invariant
                old(self).finishes_read(&started, run),
                from == run.blocks().len(),
                started.reaches_run(hashes@, from, trace, opens),
                trace.last() == *self,
                is_ready_part_run(opens, blocks@, from, blocks@.len() - from),
                run.is_broken() ==> ended && opens.len() == 0,
                !ended ==> opens.len() == blocks@.len() - from,
                ended && !run.is_broken() ==> opens.len() == blocks@.len() - from + 1
                    && opens.last() is Gap,
                self.wf(),
                old(self).wf(),
                old(self).same_setup(self),
                begun == run.blocks(),
                read == run.reading(),
                first == pinned_names(run.blocks()),
                begun.len() <= blocks@.len() <= hashes@.len(),
                blocks@.take(begun.len() as int) == begun,
                forall|i: int|
                    0 <= i < blocks@.len() ==> {
                        let block = #[trigger] blocks@[i];
                        &&& block.name() == hashes@[i]@
                        &&& self.index@.dom().contains(block.name())
                        &&& self.index@[block.name()].pins > 0
                        &&& self.index@[block.name()].place is Ram
                        &&& block.payload() == self.contents(block.name())
                    },
                forall|name: u128| #[trigger]
                    self.index@.dom().contains(name) ==> {
                        &&& old(self).index@.dom().contains(name)
                        &&& self.index@[name].parent == old(self).index@[name].parent
                        &&& self.index@[name].depth_tokens == old(self).index@[name].depth_tokens
                        &&& self.contents(name) == (if read is Some && read->0.is_filled()
                            && read->0.name() == name && old(self).index@[name].place is Disk {
                            read->0.staged()
                        } else {
                            old(self).contents(name)
                        })
                    },
                forall|name: u128| #[trigger]
                    old(self).index@.dom().contains(name) && old(self).index@[name].pins > 0
                        ==> {
                        &&& self.index@.dom().contains(name)
                        &&& old(self).index@[name].place is Ram ==> self.index@[name].place == old(
                            self).index@[name].place
                        &&& self.index@[name].place.copy() == old(self).index@[name].place.copy()
                    },
                forall|name: u128|
                    #![trigger self.pins_of(name)]
                    #![trigger old(self).pins_of(name)]
                    self.pins_of(name) >= old(self).pins_of(name),
                self.moved() == started.moved(),
                self.stats.lookups == old(self).stats.lookups,
                self.stats.queried_blocks == old(self).stats.queried_blocks,
                self.stats.hit_blocks == old(self).stats.hit_blocks,
                self.stats.promoted_blocks == started.stats.promoted_blocks,
                started.moved() == (if read is Some && read->0.is_filled() {
                    Some(
                        DiskStats {
                            reads: crate::tier::raised(old(self).moved()->0.reads, 1),
                            bytes_read: crate::tier::raised(
                                old(self).moved()->0.bytes_read,
                                old(self).shape().size(),
                            ),
                            ..old(self).moved()->0
                        },
                    )
                } else {
                    old(self).moved()
                }),
                started.stats.promoted_blocks == (if read is Some && read->0.is_filled() {
                    crate::tier::raised(old(self).stats.promoted_blocks, 1)
                } else {
                    old(self).stats.promoted_blocks
                }),
                self.ram_policy.clock() >= old(self).ram_policy.clock(),
                self.disk_policy.clock() >= old(self).disk_policy.clock(),
                forall|name: u128|
                    #![trigger old(self).pins_of(name)]
                    old(self).pins_of(name) >= occurrences(first, name),
                forall|name: u128|
                    #![trigger self.pins_of(name)]
                    self.pins_of(name) + occurrences(first, name) == old(self).pins_of(name)
                        + occurrences(pinned_names(blocks@), name),
                self.ledger@.ram_held == (match read {
                    Some(promotion) => old(self).ledger@.ram_held.remove(promotion.target()),
                    None => old(self).ledger@.ram_held,
                }),
                self.ledger@.disk_held == old(self).ledger@.disk_held,
                self.ledger@.loose.subset_of(old(self).ledger@.loose),
                ended && blocks@.len() < hashes@.len() ==> {
                    let name = hashes@[blocks@.len() as int]@;
                    ||| read is Some && !read->0.is_filled()
                    ||| !self.index@.dom().contains(name)
                    ||| self.index@[name].pins == u64::MAX
                    ||| {
                        &&& self.index@[name].place is Disk
                        &&& self.free_slots() == 0
                        &&& forall|other: u128| #[trigger]
                            is_spare(self.index@, Some(hashes@[blocks@.len() as int]), other)
                                ==> old(self).ledger@.loose.contains(other)
                    }
                },
            decreases
                hashes.len() - blocks.len(),
                if ended {
                    0int
                } else {
                    1
                },
        {
            let hash: BlockHash = hashes[blocks.len()];
            let ghost before = *self;
            let ghost done = blocks@;
            proof {
                lemma_occurs_once_more(pinned_names(done), hash@);
            }
            let opened = self.reach_block(hash);
            proof {
                Self::lemma_reaching_goes_on(trace, opens, hashes@, from, *self, opened);
                trace = trace.push(*self);
                opens = opens.push(opened);
                assert forall|name: u128|
                    #![trigger self.pins_of(name)]
                    self.pins_of(name) == before.pins_of(name) + if opened is Ready && name
                        == hash@ {
                        1nat
                    } else {
                        0
                    } by {
                    if before.pins_of(name) > 0 {
                        assert(before.index@.dom().contains(name));
                    }
                    if self.index@.dom().contains(name) {
                        assert(before.index@.dom().contains(name));
                    }
                }
                assert forall|name: u128| #[trigger]
                    old(self).index@.dom().contains(name) && old(self).index@[name].pins
                        > 0 implies {
                    &&& self.index@.dom().contains(name)
                    &&& old(self).index@[name].place is Ram ==> self.index@[name].place == old(
                        self).index@[name].place
                    &&& self.index@[name].place.copy() == old(self).index@[name].place.copy()
                } by {
                    assert(before.pins_of(name) >= old(self).pins_of(name));
                    assert(before.index@.dom().contains(name));
                }
                assert forall|i: int| 0 <= i < done.len() implies {
                    let block = #[trigger] done[i];
                    &&& self.index@.dom().contains(block.name())
                    &&& self.index@[block.name()].place is Ram
                    &&& block.payload() == self.contents(block.name())
                } by {
                    assert(before.index@.dom().contains(done[i].name()));
                }
            }
            match opened {
                Opened::Ready(block) => {
                    proof {
                        assert(pinned_names(done.push(block)) =~= pinned_names(done).push(
                            block.name(),
                        ));
                        assert(done.push(block).take(begun.len() as int) =~= begun);
                    }
                    blocks.push(block);
                },
                Opened::Pending(promotion) => {
                    let next = PinRun { blocks, reading: Some(promotion) };
                    proof {
                        assert(is_ready_part_run(
                            opens,
                            next.blocks(),
                            from,
                            next.blocks().len() - from,
                        ));
                        assert(started.reaches_run(hashes@, from, trace, opens));
                    }
                    return PinStep::Read(next);
                },
                Opened::Gap => {
                    proof {
                        if self.index@.dom().contains(hash@) && self.index@[hash@].pins != u64::MAX {
                            assert forall|other: u128| #[trigger]
                                is_spare(self.index@, Some(hash), other) implies old(
                                self).ledger@.loose.contains(other) by {
                                assert(is_spare(before.index@, Some(hash), other));
                            }
                        }
                    }
                    ended = true;
                },
                Opened::Demote(demotion) => {
                    let next = PinRun { blocks, reading: None };
                    proof {
                        assert(is_ready_part_run(
                            opens,
                            next.blocks(),
                            from,
                            next.blocks().len() - from,
                        ));
                        assert(started.reaches_run(hashes@, from, trace, opens));
                    }
                    return PinStep::Demote(demotion, next);
                },
            }
        }
        let ghost finished = *self;
        self.stats.lookups = self.stats.lookups.saturating_add(1);
        self.stats.queried_blocks = self.stats.queried_blocks.saturating_add(hashes.len() as u64);
        self.stats.hit_blocks = self.stats.hit_blocks.saturating_add(blocks.len() as u64);
        proof {
            assert forall|name: u128|
                #![trigger self.pins_of(name)]
                self.pins_of(name) + occurrences(first, name) == old(self).pins_of(name)
                    + occurrences(pinned_names(blocks@), name) by {
                assert(self.pins_of(name) == finished.pins_of(name));
            }
            assert(finished.counts_lookup(self, hashes@.len(), blocks@.len()));
        }
        PinStep::Done(blocks)
    }

    /// Let go of blocks held open.
    pub fn unpin_all(&mut self, blocks: &[PinnedBlock])
        requires
            old(self).wf(),
        ensures
            final(self).wf(),
            old(self).same_setup(final(self)),
            final(self).entries().dom() == old(self).entries().dom(),
            forall|name: u128| #[trigger]
                old(self).entries().dom().contains(name) ==> {
                    &&& final(self).entries()[name] == (Entry {
                        pins: final(self).entries()[name].pins,
                        ..old(self).entries()[name]
                    })
                    &&& final(self).contents(name) == old(self).contents(name)
                },
            forall|name: u128|
                #![trigger final(self).pins_of(name)]
                final(self).pins_of(name) == (if old(self).pins_of(name) > occurrences(
                    pinned_names(blocks@),
                    name,
                ) {
                    (old(self).pins_of(name) - occurrences(pinned_names(blocks@), name)) as nat
                } else {
                    0
                }),
            final(self).clock() == old(self).clock(),
            final(self).free_slots() == old(self).free_slots(),
            final(self).free_disk_slots() == old(self).free_disk_slots(),
            final(self).reserved() == old(self).reserved(),
            final(self).reserved_on_disk() == old(self).reserved_on_disk(),
            final(self).withheld() == old(self).withheld(),
            final(self).passed_over() == old(self).passed_over(),
            final(self).ram_inflation() == old(self).ram_inflation(),
            final(self).disk_inflation() == old(self).disk_inflation(),
            final(self).moved() == old(self).moved(),
            final(self).counters() == old(self).counters(),
    {
        let mut i: usize = 0;
        proof {
            assert(pinned_names(blocks@.take(0)) =~= Seq::<u128>::empty());
        }
        while i < blocks.len()
            invariant
                self.wf(),
                i <= blocks@.len(),
                old(self).same_fields(self),
                self.slab == old(self).slab,
                self.disk == old(self).disk,
                self.stats == old(self).stats,
                self.ledger == old(self).ledger,
                self.ram_policy == old(self).ram_policy,
                self.disk_policy == old(self).disk_policy,
                self.index.clock() == old(self).index.clock(),
                self.index@.dom() == old(self).index@.dom(),
                forall|name: u128| #[trigger]
                    old(self).index@.dom().contains(name) ==> self.index@[name] == (Entry {
                        pins: self.index@[name].pins,
                        ..old(self).index@[name]
                    }),
                forall|name: u128|
                    #![trigger self.pins_of(name)]
                    self.pins_of(name) == (if old(self).pins_of(name) > occurrences(
                        pinned_names(blocks@.take(i as int)),
                        name,
                    ) {
                        (old(self).pins_of(name) - occurrences(
                            pinned_names(blocks@.take(i as int)),
                            name,
                        )) as nat
                    } else {
                        0
                    }),
            decreases blocks.len() - i,
        {
            let ghost before = *self;
            self.unpin_block(blocks[i].hash());
            proof {
                let name = blocks@[i as int].name();
                lemma_occurs_once_more(pinned_names(blocks@.take(i as int)), name);
                assert(pinned_names(blocks@.take(i + 1)) =~= pinned_names(
                    blocks@.take(i as int),
                ).push(name));
                assert forall|name: u128|
                    #![trigger self.pins_of(name)]
                    self.pins_of(name) == (if old(self).pins_of(name) > occurrences(
                        pinned_names(blocks@.take(i + 1)),
                        name,
                    ) {
                        (old(self).pins_of(name) - occurrences(
                            pinned_names(blocks@.take(i + 1)),
                            name,
                        )) as nat
                    } else {
                        0
                    }) by {
                    let was = before.pins_of(name);
                    if before.index@.dom().contains(name) {
                        assert(old(self).index@.dom().contains(name));
                    }
                }
            }
            i = i + 1;
        }
        assert(blocks@.take(i as int) =~= blocks@);
    }

    /// RAM blocks with no disk copy, whose slots cannot be reclaimed without
    /// a write first.
    pub fn dirty_blocks(&self) -> (count: usize)
        requires
            self.wf(),
        ensures
            count == self.entries().dom().filter(
                |name: u128| self.entries()[name].place.copy() is None,
            ).len(),
    {
        let names = self.index.names();
        let mut count: usize = 0;
        let mut i: usize = 0;
        let ghost mut seen = Set::<u128>::empty();
        while i < names.len()
            invariant
                i <= names@.len(),
                count <= i,
                names@.len() == self.index@.len(),
                forall|i: int, j: int|
                    0 <= i < names@.len() && 0 <= j < names@.len() && i != j ==> (
                    #[trigger] names@[i])@ != (#[trigger] names@[j])@,
                forall|i: int|
                    0 <= i < names@.len() ==> self.index@.dom().contains((#[trigger] names@[i])@),
                seen.finite(),
                count == seen.len(),
                forall|name: u128| #[trigger]
                    seen.contains(name) ==> exists|j: int|
                        0 <= j < i && (#[trigger] names@[j])@ == name,
                forall|name: u128| #[trigger]
                    seen.contains(name) ==> self.index@.dom().contains(name)
                        && self.index@[name].place.copy() is None,
                forall|j: int|
                    0 <= j < i && self.index@[(#[trigger] names@[j])@].place.copy() is None
                        ==> seen.contains(names@[j]@),
            decreases names.len() - i,
        {
            if let Some(entry) = self.index.get(names[i]) {
                if entry.place.is_dirty() {
                    proof {
                        assert(!seen.contains(names@[i as int]@));
                        seen = seen.insert(names@[i as int]@);
                    }
                    count = count + 1;
                }
            }
            i = i + 1;
        }
        proof {
            let dirty = self.entries().dom().filter(
                |name: u128| self.entries()[name].place.copy() is None,
            );
            assert forall|name: u128| dirty.contains(name) implies seen.contains(name) by {
                assert(self.index@.dom().contains(name));
                let j = choose|j: int| 0 <= j < names@.len() && (#[trigger] names@[j])@ == name;
                assert(names@[j]@ == name);
            }
            assert(dirty =~= seen);
        }
        count
    }

    /// Jobs that the store stands by: each block is pinned and lies where the
    /// job found it, and each has a disk slot of its own.
    pub open spec fn stands_by_jobs(&self, jobs: Seq<Writeback>) -> bool {
        &&& forall|i: int|
            0 <= i < jobs.len() ==> {
                let job = #[trigger] jobs[i];
                &&& self.entries().dom().contains(job.name())
                &&& self.entries()[job.name()].pins > 0
                &&& self.entries()[job.name()].place.slot() == Some(job.home())
                &&& job.payload() == self.contents(job.name())
                &&& self.reserved_on_disk().contains(job.target().number)
            }
        &&& forall|i: int, j: int|
            0 <= i < j < jobs.len() ==> {
                &&& (#[trigger] jobs[i]).name() != (#[trigger] jobs[j]).name()
                &&& jobs[i].target().number != jobs[j].target().number
            }
    }

    /// Pick up to `max` dirty blocks to copy to disk, cheapest-to-keep first.
    ///
    /// Takes the blocks the eviction policy would give up next, so the work
    /// lands exactly where it will be needed. Each job holds a pin and a
    /// reserved disk slot; pass them all to `finish_writeback` or both leak.
    pub fn begin_writeback(&mut self, max: usize) -> (jobs: Vec<Writeback>)
        requires
            old(self).wf(),
        ensures
            final(self).wf(),
            old(self).same_setup(final(self)),
            jobs@.len() <= max,
            !old(self).tiered() ==> jobs@.len() == 0,
            final(self).stands_by_jobs(jobs@),
            forall|i: int|
                0 <= i < jobs@.len() ==> {
                    let job = #[trigger] jobs@[i];
                    let before = old(self).entries()[job.name()];
                    &&& is_dirty_spare(old(self).entries(), job.name())
                    &&& crate::evict::judged(old(self).pricing(), before.depth_tokens, true)
                    &&& job.payload() == old(self).contents(job.name())
                    &&& !job.is_written()
                    &&& !old(self).reserved_on_disk().contains(job.target().number)
                    &&& final(self).entries()[job.name()] == (Entry {
                        pins: 1,
                        last_access: crate::tier::raised(old(self).clock(), i + 1),
                        ..before
                    })
                },
            forall|i: int, j: int|
                0 <= i < j < jobs@.len() ==> crate::evict::standing(
                    (#[trigger] jobs@[i]).name(),
                    old(self).entries()[jobs@[i].name()],
                ).before(
                    crate::evict::standing(
                        (#[trigger] jobs@[j]).name(),
                        old(self).entries()[jobs@[j].name()],
                    ),
                ),
            // A candidate is left out only for a reason.
            old(self).tiered() ==> forall|name: u128| #[trigger]
                is_dirty_spare(old(self).entries(), name) && is_due(
                    old(self).entries(),
                    old(self).withheld(),
                    old(self).passed_over(),
                    name,
                ) ==> {
                    ||| exists|i: int| 0 <= i < jobs@.len() && (#[trigger] jobs@[i]).name() == name
                    ||| crate::evict::judged(
                        old(self).pricing(),
                        old(self).entries()[name].depth_tokens,
                        false,
                    )
                    ||| final(self).free_disk_slots() == 0
                    ||| exists|ahead: Seq<BlockHash>| #[trigger]
                        is_outranked(old(self).entries(), max as nat, name, ahead)
                },
            final(self).entries().dom() == old(self).entries().dom(),
            forall|name: u128| #[trigger]
                old(self).entries().dom().contains(name) ==> {
                    &&& final(self).contents(name) == old(self).contents(name)
                    &&& (forall|i: int|
                        0 <= i < jobs@.len() ==> (#[trigger] jobs@[i]).name() != name) ==> final(
                        self).entries()[name] == old(self).entries()[name]
                },
            final(self).reserved() == old(self).reserved(),
            final(self).reserved_on_disk() == old(self).reserved_on_disk().union(
                job_slots(jobs@),
            ),
            final(self).free_slots() == old(self).free_slots(),
            final(self).free_disk_slots() + jobs@.len() == old(self).free_disk_slots(),
            final(self).withheld() == old(self).withheld(),
            final(self).passed_over() == old(self).passed_over(),
            final(self).ram_inflation() == old(self).ram_inflation(),
            final(self).disk_inflation() == old(self).disk_inflation(),
            final(self).moved() == old(self).moved(),
            final(self).counters() == old(self).counters(),
            final(self).clock() == crate::tier::raised(old(self).clock(), jobs@.len() as int),
    {
        let mut jobs: Vec<Writeback> = Vec::new();
        proof {
            assert(self.ledger@.disk_held.union(job_slots(jobs@)) =~= self.ledger@.disk_held);
        }
        if self.disk.is_none() {
            return jobs;
        }
        let names = self.ram_policy.peek_victims(&self.index, max, Wanted::Dirty);
        proof {
            assert forall|name: u128| #[trigger]
                self.index@.dom().contains(name) && is_due(
                        self.index@,
                        self.ledger@.loose,
                        self.ledger@.parked,
                        name,
                    ) implies {
                if self.index@[name].place is Ram {
                    self.ram_policy@.contains(crate::evict::standing(name, self.index@[name]))
                } else {
                    self.disk_policy@.contains(crate::evict::standing(name, self.index@[name]))
                }
            } by {
                assert(crate::evict::is_fresh(
                    self.index@,
                    crate::evict::standing(name, self.index@[name]),
                ));
            }
            assert forall|i: int| 0 <= i < names@.len() implies is_dirty_spare(
                self.index@,
                (#[trigger] names@[i])@,
            ) by {
                assert(crate::evict::is_eligible(
                    self.index@,
                    None,
                    Wanted::Dirty,
                    crate::evict::standing(names@[i]@, self.index@[names@[i]@]),
                ));
            }
            // Whoever is not among the names has `max` of them ahead.
            assert forall|name: u128| #[trigger]
                is_dirty_spare(old(self).index@, name) && is_due(
                    old(self).index@,
                    old(self).ledger@.loose,
                    old(self).ledger@.parked,
                    name,
                ) implies {
                ||| exists|i: int| 0 <= i < names@.len() && (#[trigger] names@[i])@ == name
                ||| is_outranked(old(self).index@, max as nat, name, names@)
            } by {
                assert(old(self).index@.dom().contains(name));
                let standing = crate::evict::standing(name, old(self).index@[name]);
                assert(crate::evict::is_eligible(old(self).index@, None, Wanted::Dirty, standing));
            }
        }
        let ghost mut from: Seq<int> = Seq::empty();
        let mut i: usize = 0;
        let mut full: bool = false;
        while i < names.len() && !full
            invariant
                self.wf(),
                old(self).wf(),
                old(self).same_fields(self),
                self.disk is Some,
                old(self).disk is Some,
                self.slab == old(self).slab,
                self.stats == old(self).stats,
                self.index.clock() == crate::tier::raised(
                    old(self).index.clock(),
                    jobs@.len() as int,
                ),
                self.ram_policy.clock() == old(self).ram_policy.clock(),
                self.disk_policy == old(self).disk_policy,
                self.moved() == old(self).moved(),
                self.ledger@.ram_held == old(self).ledger@.ram_held,
                self.ledger@.image == old(self).ledger@.image,
                self.ledger@.loose == old(self).ledger@.loose,
                self.ledger@.parked == old(self).ledger@.parked,
                self.disk_slots() == old(self).disk_slots(),
                i <= names@.len() <= max,
                forall|n: int|
                    0 <= n < names@.len() ==> is_dirty_spare(
                        old(self).index@,
                        (#[trigger] names@[n])@,
                    ),
                forall|n: int, m: int|
                    0 <= n < m < names@.len() ==> {
                        &&& (#[trigger] names@[n])@ != (#[trigger] names@[m])@
                        &&& crate::evict::standing(names@[n]@, old(self).index@[names@[n]@]).before(
                            crate::evict::standing(names@[m]@, old(self).index@[names@[m]@]),
                        )
                    },
                jobs@.len() <= i,
                jobs@.len() == from.len(),
                forall|k: int|
                    0 <= k < jobs@.len() ==> {
                        &&& 0 <= #[trigger] from[k] < i
                        &&& jobs@[k].name() == names@[from[k]]@
                    },
                forall|k: int, l: int|
                    0 <= k < l < jobs@.len() ==> #[trigger] from[k] < #[trigger] from[l],
                forall|k: int|
                    0 <= k < jobs@.len() ==> {
                        let job = #[trigger] jobs@[k];
                        let before = old(self).index@[job.name()];
                        &&& crate::evict::judged(old(self).costs, before.depth_tokens, true)
                        &&& job.payload() == old(self).contents(job.name())
                        &&& !job.is_written()
                        &&& before.place.slot() == Some(job.home())
                        &&& !old(self).ledger@.disk_held.contains(job.target().number)
                        &&& self.ledger@.disk_held.contains(job.target().number)
                        &&& self.index@[job.name()] == (Entry {
                            pins: 1,
                            last_access: crate::tier::raised(old(self).index.clock(), k + 1),
                            ..before
                        })
                    },
                forall|k: int, l: int|
                    0 <= k < l < jobs@.len() ==> (#[trigger] jobs@[k]).target().number != (
                    #[trigger] jobs@[l]).target().number,
                self.index@.dom() == old(self).index@.dom(),
                forall|name: u128| #[trigger]
                    old(self).index@.dom().contains(name) && (forall|k: int|
                        0 <= k < jobs@.len() ==> (#[trigger] jobs@[k]).name() != name)
                        ==> self.index@[name] == old(self).index@[name],
                forall|n: int|
                    0 <= n < i && !full ==> {
                        ||| exists|k: int|
                            0 <= k < jobs@.len() && (#[trigger] jobs@[k]).name() == (
                            #[trigger] names@[n])@
                        ||| crate::evict::judged(
                            old(self).costs,
                            old(self).index@[names@[n]@].depth_tokens,
                            false,
                        )
                    },
                full ==> self.free_disk_slots() == 0,
                self.ledger@.disk_held == old(self).ledger@.disk_held.union(job_slots(jobs@)),
                self.free_disk_slots() + jobs@.len() == old(self).free_disk_slots(),
            decreases names.len() - i,
        {
            let hash: BlockHash = names[i];
            let ghost before = *self;
            let ghost done = jobs@;
            proof {
                assert(is_dirty_spare(old(self).index@, names@[i as int]@));
                assert forall|k: int| 0 <= k < done.len() implies (#[trigger] done[k]).name()
                    != hash@ by {
                    assert(from[k] < i);
                }
                assert(self.index@[hash@] == old(self).index@[hash@]);
            }
            i = i + 1;
            let entry: Entry = match self.index.get(hash) {
                None => {
                    continue ;
                },
                Some(entry) => *entry,
            };
            // A block we would rather drop than demote is not worth a write.
            if !self.costs.worth_demoting(entry.depth_tokens) {
                proof {
                    assert(names@[i - 1]@ == hash@);
                }
                continue ;
            }
            let slot: SlotId = match entry.place.ram() {
                None => {
                    continue ;
                },
                Some(slot) => slot,
            };
            let disk_slot: DiskSlot = match self.hold_free_disk_slot() {
                None => {
                    // The disk is full; the blocking path can still make room.
                    full = true;
                    continue ;
                },
                Some(disk_slot) => disk_slot,
            };
            let ghost reserved = *self;
            proof {
                self.slab.lemma_shape();
                assert(crate::ledger::ram_map(self.index@).dom().contains(hash@));
            }
            let block = self.slab.pinned(hash, slot);
            let _ = self.index.pin(hash);
            let job = Writeback { hash, slot, disk_slot, block, written: false };
            proof {
                assert(self.index@.dom() =~= reserved.index@.dom());
                assert(crate::ledger::ram_map(self.index@) =~= crate::ledger::ram_map(
                    reserved.index@,
                ));
                assert(crate::ledger::disk_map(self.index@) =~= crate::ledger::disk_map(
                    reserved.index@,
                ));
                assert forall|name: u128| #[trigger] self.index@.dom().contains(name) implies {
                    &&& reserved.index@.dom().contains(name)
                    &&& self.index@[name].place == reserved.index@[name].place
                    &&& self.index@[name].children == reserved.index@[name].children
                    &&& crate::evict::standing(name, self.index@[name]) == crate::evict::standing(
                        name,
                        reserved.index@[name],
                    )
                } by {}
                assert(self.wf());
                assert(done.push(job).drop_last() =~= done);
                assert(self.ledger@.disk_held =~= old(self).ledger@.disk_held.union(
                    job_slots(done.push(job)),
                ));
                from = from.push(i - 1);
            }
            jobs.push(job);
            proof {
                assert forall|n: int| 0 <= n < i && !full implies {
                    ||| exists|k: int|
                        0 <= k < jobs@.len() && (#[trigger] jobs@[k]).name() == (
                        #[trigger] names@[n])@
                    ||| crate::evict::judged(
                        old(self).costs,
                        old(self).index@[names@[n]@].depth_tokens,
                        false,
                    )
                } by {
                    if n == i - 1 {
                        assert(jobs@[done.len() as int].name() == names@[n]@);
                    } else if exists|k: int|
                        0 <= k < done.len() && (#[trigger] done[k]).name() == names@[n]@ {
                        let k = choose|k: int|
                            0 <= k < done.len() && (#[trigger] done[k]).name() == names@[n]@;
                        assert(jobs@[k].name() == names@[n]@);
                    }
                }
                assert forall|name: u128| #[trigger]
                    old(self).index@.dom().contains(name) && (forall|k: int|
                        0 <= k < jobs@.len() ==> (#[trigger] jobs@[k]).name() != name)
                        implies self.index@[name] == old(self).index@[name] by {
                    assert(jobs@[done.len() as int].name() != name);
                    assert(forall|k: int|
                        0 <= k < done.len() ==> (#[trigger] done[k]).name() == jobs@[k].name());
                }
            }
        }
        proof {
            assert forall|k: int| 0 <= k < jobs@.len() implies is_dirty_spare(
                old(self).index@,
                (#[trigger] jobs@[k]).name(),
            ) by {
                let n = from[k];
                assert(is_dirty_spare(old(self).index@, names@[n]@));
            }
            assert forall|k: int, l: int| 0 <= k < l < jobs@.len() implies {
                &&& (#[trigger] jobs@[k]).name() != (#[trigger] jobs@[l]).name()
                &&& crate::evict::standing(
                    jobs@[k].name(),
                    old(self).index@[jobs@[k].name()],
                ).before(
                    crate::evict::standing(jobs@[l].name(), old(self).index@[jobs@[l].name()]),
                )
            } by {
                let (n, m) = (from[k], from[l]);
                assert(names@[n]@ != names@[m]@);
            }
        }
        jobs
    }

    /// Claim a slot on disk if one is free.
    fn hold_free_disk_slot(&mut self) -> (slot: Option<DiskSlot>)
        requires
            old(self).wf(),
        ensures
            final(self).wf(),
            old(self).same_fields(final(self)),
            final(self).index == old(self).index,
            final(self).slab == old(self).slab,
            final(self).ram_policy == old(self).ram_policy,
            final(self).disk_policy == old(self).disk_policy,
            final(self).stats == old(self).stats,
            final(self).moved() == old(self).moved(),
            final(self).disk is Some == old(self).disk is Some,
            final(self).disk_slots() == old(self).disk_slots(),
            match slot {
                Some(slot) => {
                    &&& !old(self).ledger@.disk_held.contains(slot.number)
                    &&& old(self).free_disk_slots() == final(self).free_disk_slots() + 1
                    &&& final(self).ledger@ == (Ledger {
                        disk_held: old(self).ledger@.disk_held.insert(slot.number),
                        ..old(self).ledger@
                    })
                },
                None => {
                    &&& old(self).free_disk_slots() == 0
                    &&& final(self).free_disk_slots() == 0
                    &&& final(self).ledger@ == old(self).ledger@
                },
            },
    {
        let ghost before = *self;
        let mut slot: Option<DiskSlot> = None;
        if let Some(disk) = &mut self.disk {
            slot = disk.claim();
        }
        proof {
            if let Some(slot) = slot {
                crate::ledger::lemma_hold(
                    crate::ledger::disk_map(self.index@),
                    self.ledger@.disk_owner,
                    self.ledger@.disk_held,
                    before.disk_taken(),
                    slot.number,
                );
                self.ledger@.disk_held = self.ledger@.disk_held.insert(slot.number);
            }
        }
        slot
    }

    /// A copy landed on disk: the block is clean now.
    fn make_clean(&mut self, hash: BlockHash, slot: SlotId, disk_slot: DiskSlot)
        requires
            old(self).wf(),
            old(self).index@.dom().contains(hash@),
            old(self).index@[hash@].place == (Place::Ram { slot, backing: None }),
            old(self).ledger@.disk_held.contains(disk_slot.number),
        ensures
            final(self).wf(),
            old(self).same_fields(final(self)),
            final(self).slab == old(self).slab,
            final(self).disk == old(self).disk,
            final(self).stats == old(self).stats,
            final(self).ram_policy == old(self).ram_policy,
            final(self).disk_policy == old(self).disk_policy,
            final(self).index.clock() == old(self).index.clock(),
            final(self).ledger@.ram_held == old(self).ledger@.ram_held,
            final(self).ledger@.disk_held == old(self).ledger@.disk_held.remove(disk_slot.number),
            final(self).ledger@.loose == old(self).ledger@.loose,
            final(self).ledger@.parked == old(self).ledger@.parked,
            final(self).index@ == old(self).index@.insert(
                hash@,
                Entry {
                    place: Place::Ram { slot, backing: Some(disk_slot) },
                    ..old(self).index@[hash@]
                },
            ),
            final(self).index@.dom() == old(self).index@.dom(),
            forall|name: u128| #[trigger]
                old(self).index@.dom().contains(name) ==> final(self).contents(name) == old(
                    self).contents(name),
    {
        let ghost before = *self;
        proof {
            crate::ledger::lemma_settle(
                crate::ledger::disk_map(before.index@),
                self.ledger@.disk_owner,
                self.ledger@.disk_held,
                self.disk_taken(),
                hash@,
                disk_slot.number,
            );
            self.ledger@.disk_owner = self.ledger@.disk_owner.insert(disk_slot.number, hash@);
            self.ledger@.disk_held = self.ledger@.disk_held.remove(disk_slot.number);
            self.ledger@.image = self.ledger@.image.insert(
                disk_slot.number,
                self.slab.bytes_at(slot.number),
            );
        }
        self.index.set_place(hash, Place::Ram { slot, backing: Some(disk_slot) });
        proof {
            assert(self.index@.dom() =~= before.index@.dom());
            assert(crate::ledger::ram_map(self.index@) =~= crate::ledger::ram_map(before.index@));
            assert(crate::ledger::disk_map(self.index@) =~= crate::ledger::disk_map(
                before.index@,
            ).insert(hash@, disk_slot.number));
            assert forall|name: u128| #[trigger] before.index@.dom().contains(name) implies {
                before.index@[name].place.copy() matches Some(copy) ==> copy.number
                    != disk_slot.number
            } by {
                assert(before.index@[name].place.copy() is Some ==> crate::ledger::disk_map(
                    before.index@,
                ).dom().contains(name));
            }
            assert forall|name: u128| #[trigger]
                self.index@.dom().contains(name) implies match self.index@[name].place {
                Place::Ram { slot, backing: Some(backing) } => self.slab.bytes_at(slot.number)
                    == self.ledger@.image[backing.number],
                Place::Ram { backing: None, .. } => true,
                Place::Disk(slot) => self.ledger@.image[slot.number].len() == self.slab.width(),
            } by {
                assert(before.index@.dom().contains(name));
            }
            assert forall|name: u128| #[trigger]
                self.index@.dom().contains(name) && is_due(
                        self.index@,
                        self.ledger@.loose,
                        self.ledger@.parked,
                        name,
                    ) implies {
                if self.index@[name].place is Ram {
                    self.ram_policy@.contains(crate::evict::standing(name, self.index@[name]))
                } else {
                    self.disk_policy@.contains(crate::evict::standing(name, self.index@[name]))
                }
            } by {
                assert(before.index@.dom().contains(name));
            }
        }
    }

    /// Record the copies that landed, making those blocks free to evict.
    pub fn finish_writeback(&mut self, jobs: Vec<Writeback>)
        requires
            old(self).wf(),
            old(self).stands_by_jobs(jobs@),
        ensures
            final(self).wf(),
            old(self).same_setup(final(self)),
            final(self).entries().dom() == old(self).entries().dom(),
            forall|i: int|
                0 <= i < jobs@.len() ==> {
                    let job = #[trigger] jobs@[i];
                    let before = old(self).entries()[job.name()];
                    final(self).entries()[job.name()] == (Entry {
                        place: if job.is_written() && before.place.copy() is None {
                            Place::Ram { slot: job.home(), backing: Some(job.target()) }
                        } else {
                            before.place
                        },
                        pins: (before.pins - 1) as u64,
                        ..before
                    })
                },
            forall|name: u128| #[trigger]
                old(self).entries().dom().contains(name) ==> {
                    &&& final(self).contents(name) == old(self).contents(name)
                    &&& (forall|i: int|
                        0 <= i < jobs@.len() ==> (#[trigger] jobs@[i]).name() != name) ==> final(
                        self).entries()[name] == old(self).entries()[name]
                },
            final(self).reserved() == old(self).reserved(),
            final(self).reserved_on_disk() == old(self).reserved_on_disk().difference(
                job_slots(jobs@),
            ),
            final(self).free_slots() == old(self).free_slots(),
            final(self).free_disk_slots() + copies_in(
                jobs@,
                old(self).entries(),
                jobs@.len(),
            ) == old(self).free_disk_slots() + jobs@.len(),
            final(self).withheld() == old(self).withheld(),
            final(self).passed_over() == old(self).passed_over(),
            final(self).clock() == old(self).clock(),
            final(self).ram_inflation() == old(self).ram_inflation(),
            final(self).disk_inflation() == old(self).disk_inflation(),
            final(self).counters() == (Stats {
                written_back: crate::tier::raised(
                    old(self).counters().written_back,
                    copies_in(jobs@, old(self).entries(), jobs@.len()) as int,
                ),
                ..old(self).counters()
            }),
            final(self).moved() == (match old(self).moved() {
                None => None,
                Some(moved) => Some(
                    DiskStats {
                        writes: crate::tier::raised(
                            moved.writes,
                            copies_in(jobs@, old(self).entries(), jobs@.len()) as int,
                        ),
                        bytes_written: crate::tier::raised(
                            moved.bytes_written,
                            crate::tier::raised(
                                0,
                                copies_in(jobs@, old(self).entries(), jobs@.len()) * old(
                                    self).shape().size(),
                            ) as int,
                        ),
                        ..moved
                    },
                ),
            }),
    {
        let ghost all = jobs@;
        let mut written: u64 = 0;
        let mut bytes: u64 = 0;
        let block_bytes: usize = self.slab.block_bytes();
        let total: usize = jobs.len();
        proof {
            assert(self.ledger@.disk_held =~= self.ledger@.disk_held.difference(
                job_slots(all.take(0)),
            ));
        }
        for job in walk: jobs
            invariant
                walk.seq() == all,
                total == all.len(),
                0 <= walk.index() <= all.len(),
                self.wf(),
                old(self).wf(),
                old(self).same_fields(self),
                old(self).stands_by_jobs(all),
                self.slab == old(self).slab,
                block_bytes == self.slab.width(),
                self.disk is Some == old(self).disk is Some,
                self.moved() == old(self).moved(),
                self.stats == old(self).stats,
                self.ram_policy == old(self).ram_policy,
                self.disk_policy == old(self).disk_policy,
                self.index.clock() == old(self).index.clock(),
                self.ledger@.ram_held == old(self).ledger@.ram_held,
                self.ledger@.loose == old(self).ledger@.loose,
                self.ledger@.parked == old(self).ledger@.parked,
                self.disk_slots() == old(self).disk_slots(),
                self.ledger@.disk_held == old(self).ledger@.disk_held.difference(
                    job_slots(all.take(walk.index())),
                ),
                forall|i: int|
                    walk.index() <= i < all.len() ==> self.ledger@.disk_held.contains(
                        (#[trigger] all[i]).target().number,
                    ),
                self.index@.dom() == old(self).index@.dom(),
                forall|i: int|
                    0 <= i < walk.index() ==> {
                        let job = #[trigger] all[i];
                        let before = old(self).index@[job.name()];
                        self.index@[job.name()] == (Entry {
                            place: if job.is_written() && before.place.copy() is None {
                                Place::Ram { slot: job.home(), backing: Some(job.target()) }
                            } else {
                                before.place
                            },
                            pins: (before.pins - 1) as u64,
                            ..before
                        })
                    },
                forall|name: u128| #[trigger]
                    old(self).index@.dom().contains(name) ==> {
                        &&& self.contents(name) == old(self).contents(name)
                        &&& (forall|i: int|
                            0 <= i < walk.index() ==> (#[trigger] all[i]).name() != name)
                            ==> self.index@[name] == old(self).index@[name]
                    },
                written == copies_in(all, old(self).index@, walk.index() as nat),
                written <= walk.index(),
                bytes == crate::tier::raised(0, written * block_bytes),
                self.free_disk_slots() + written == old(self).free_disk_slots() + walk.index(),
        {
            let ghost i = walk.index();
            let ghost before = *self;
            proof {
                assert(all[i] == job);
                assert(old(self).index@.dom().contains(job.name()));
                assert(forall|k: int| 0 <= k < i ==> (#[trigger] all[k]).name() != job.name());
                assert(self.index@[job.name()] == old(self).index@[job.name()]);
                assert(all.take(i + 1).drop_last() =~= all.take(i));
                assert(self.disk_taken().contains(job.target().number));
            }
            // Only if it is still where we left it.
            let mut landed: bool = false;
            if job.written {
                if let Some(entry) = self.index.get(job.hash) {
                    landed = entry.place.is_dirty();
                }
            }
            if landed {
                self.make_clean(job.hash, job.slot, job.disk_slot);
                assert((written + 1) * block_bytes == written * block_bytes + block_bytes)
                    by (nonlinear_arith);
                written = written + 1;
                bytes = bytes.saturating_add(block_bytes as u64);
            } else {
                self.let_go_of_disk(job.disk_slot);
            }
            self.unpin_block(job.hash);
            proof {
                assert(self.ledger@.disk_held =~= old(self).ledger@.disk_held.difference(
                    job_slots(all.take(i + 1)),
                ));
                assert forall|k: int| 0 <= k < i + 1 implies {
                    let job = #[trigger] all[k];
                    let before = old(self).index@[job.name()];
                    self.index@[job.name()] == (Entry {
                        place: if job.is_written() && before.place.copy() is None {
                            Place::Ram { slot: job.home(), backing: Some(job.target()) }
                        } else {
                            before.place
                        },
                        pins: (before.pins - 1) as u64,
                        ..before
                    })
                } by {
                    if k < i {
                        assert(all[k].name() != job.name());
                    }
                }
                assert forall|name: u128| #[trigger] old(self).index@.dom().contains(name) implies {
                    &&& self.contents(name) == old(self).contents(name)
                    &&& (forall|k: int| 0 <= k < i + 1 ==> (#[trigger] all[k]).name() != name)
                        ==> self.index@[name] == old(self).index@[name]
                } by {
                    if forall|k: int| 0 <= k < i + 1 ==> (#[trigger] all[k]).name() != name {
                        assert(all[i].name() != name);
                    }
                }
            }
        }
        if let Some(disk) = &mut self.disk {
            disk.note_writes(written, bytes);
        }
        self.stats.written_back = self.stats.written_back.saturating_add(written);
        proof {
            assert(all.take(all.len() as int) =~= all);
        }
    }

    /// `name` is the `i`-th block of a chain, as it was handed in.
    pub open spec fn came_with(
        &self,
        parent: Option<BlockHash>,
        names: Seq<(BlockHash, u32)>,
        blocks: Seq<&[u8]>,
        i: int,
        name: u128,
    ) -> bool {
        let entry = self.entries()[name];
        &&& names[i].0@ == name
        &&& entry.parent == link_above(parent, names, i)
        &&& entry.depth_tokens == names[i].1
        &&& entry.pins == 0
        &&& self.contents(name) == blocks[i]@
    }

    /// Why a block is not taken in: it is absent, and what it hangs below is
    /// absent too, or there is no memory to be had.
    pub open spec fn refuses(&self, hash: BlockHash, parent: Option<BlockHash>) -> bool {
        &&& !self.entries().dom().contains(hash@)
        &&& {
            ||| parent matches Some(parent) && !self.entries().dom().contains(parent@)
            ||| self.has_no_room(self.passed_over(), parent)
        }
    }

    /// One more block of a chain: what is here is what was here, or came with
    /// the chain.
    proof fn lemma_chain_grows(
        &self,
        after: &Self,
        start: &Self,
        parent: Option<BlockHash>,
        names: Seq<(BlockHash, u32)>,
        blocks: Seq<&[u8]>,
        first: int,
        i: int,
        step: AdmitStep,
    )
        requires
            first <= i < names.len(),
            start.keeps_pinned(self),
            self.keeps_pinned(after),
            forall|name: u128| #[trigger]
                self.entries().dom().contains(name) ==> {
                    ||| start.carries(self, name)
                    ||| exists|n: int|
                        first <= n < i && #[trigger] self.came_with(parent, names, blocks, n, name)
                },
            forall|name: u128| #[trigger]
                after.entries().dom().contains(name) ==> name == names[i].0@ && step
                    == AdmitStep::Done(Admit::Inserted) || self.carries(after, name),
            step == AdmitStep::Done(Admit::Inserted) ==> after.came_with(
                parent,
                names,
                blocks,
                i,
                names[i].0@,
            ),
        ensures
            start.keeps_pinned(after),
            forall|name: u128| #[trigger]
                after.entries().dom().contains(name) ==> {
                    ||| start.carries(after, name)
                    ||| exists|n: int|
                        first <= n < i + 1 && #[trigger] after.came_with(
                            parent,
                            names,
                            blocks,
                            n,
                            name,
                        )
                },
    {
        assert forall|name: u128| #[trigger]
            start.entries().dom().contains(name) && start.entries()[name].pins > 0 implies {
            &&& start.carries(after, name)
            &&& after.entries()[name].place == start.entries()[name].place
        } by {
            assert(start.carries(self, name));
            assert(self.entries().dom().contains(name));
            assert(self.carries(after, name));
        }
        assert forall|name: u128| #[trigger] after.entries().dom().contains(name) implies {
            ||| start.carries(after, name)
            ||| exists|n: int|
                first <= n < i + 1 && #[trigger] after.came_with(parent, names, blocks, n, name)
        } by {
            if name == names[i].0@ && step == AdmitStep::Done(Admit::Inserted) {
                assert(after.came_with(parent, names, blocks, i, name));
            } else {
                assert(self.carries(after, name));
                assert(self.entries().dom().contains(name));
                if !start.carries(self, name) {
                    let n = choose|n: int|
                        first <= n < i && #[trigger] self.came_with(parent, names, blocks, n, name);
                    assert(after.came_with(parent, names, blocks, n, name));
                }
            }
        }
    }

    /// Each step leads from one store of the trace to the next: it admits a
    /// block of the chain, from `first` on, below the one before it.
    #[verifier::opaque]
    pub open spec fn is_walk(
        trace: Seq<Self>,
        steps: Seq<AdmitStep>,
        parent: Option<BlockHash>,
        names: Seq<(BlockHash, u32)>,
        blocks: Seq<&[u8]>,
        first: int,
    ) -> bool {
        &&& trace.len() == steps.len() + 1
        &&& forall|k: int|
            0 <= k < steps.len() ==> trace[k].admits(
                &trace[k + 1],
                names[first + k].0,
                link_above(parent, names, first + k),
                names[first + k].1,
                blocks[first + k]@,
                #[trigger] steps[k],
            )
    }

    /// A walk may go on from where it has come to.
    proof fn lemma_walk_goes_on(
        trace: Seq<Self>,
        steps: Seq<AdmitStep>,
        parent: Option<BlockHash>,
        names: Seq<(BlockHash, u32)>,
        blocks: Seq<&[u8]>,
        first: int,
        next: Self,
        step: AdmitStep,
    )
        requires
            Self::is_walk(trace, steps, parent, names, blocks, first),
            trace.last().admits(
                &next,
                names[first + steps.len()].0,
                link_above(parent, names, first + steps.len()),
                names[first + steps.len()].1,
                blocks[first + steps.len()]@,
                step,
            ),
        ensures
            Self::is_walk(trace.push(next), steps.push(step), parent, names, blocks, first),
            taken_in(steps.push(step)) == taken_in(steps) + if step == AdmitStep::Done(
                Admit::Inserted,
            ) {
                1nat
            } else {
                0nat
            },
            found_in(steps.push(step)) == found_in(steps) + if step == AdmitStep::Done(
                Admit::AlreadyPresent,
            ) {
                1nat
            } else {
                0nat
            },
    {
        reveal(KvStore::is_walk);
        assert(steps.push(step).drop_last() =~= steps);
        let longer = trace.push(next);
        assert forall|k: int| 0 <= k < steps.len() + 1 implies longer[k].admits(
            &longer[k + 1],
            names[first + k].0,
            link_above(parent, names, first + k),
            names[first + k].1,
            blocks[first + k]@,
            #[trigger] steps.push(step)[k],
        ) by {
            if k < steps.len() {
                assert(steps.push(step)[k] == steps[k]);
                assert(longer[k] == trace[k] && longer[k + 1] == trace[k + 1]);
            } else {
                assert(longer[k] == trace.last());
            }
        }
    }

    /// `trace` leads from here to `after`, one admission at a time: the blocks
    /// of the chain from `first` on are admitted in turn until one is neither
    /// taken in nor found, or there are no more.
    pub open spec fn walks_chain(
        &self,
        after: &Self,
        parent: Option<BlockHash>,
        names: Seq<(BlockHash, u32)>,
        blocks: Seq<&[u8]>,
        first: int,
        trace: Seq<Self>,
        steps: Seq<AdmitStep>,
    ) -> bool {
        &&& Self::is_walk(trace, steps, parent, names, blocks, first)
        &&& trace.len() == steps.len() + 1
        &&& trace[0] == *self
        &&& trace.last() == *after
        &&& first + steps.len() <= names.len()
        &&& forall|k: int| 0 <= k < steps.len() - 1 ==> goes_on(#[trigger] steps[k])
        &&& first + steps.len() < names.len() ==> steps.len() > 0 && !goes_on(steps.last())
    }

    /// What admitting a chain does, from block `run.next()` on.
    pub open spec fn admits_chain(
        &self,
        after: &Self,
        parent: Option<BlockHash>,
        names: Seq<(BlockHash, u32)>,
        blocks: Seq<&[u8]>,
        run: ChainRun,
        step: ChainStep,
    ) -> bool {
        &&& self.same_setup(after)
        &&& self.keeps_pinned(after)
        &&& forall|name: u128| #[trigger]
            after.entries().dom().contains(name) ==> {
                ||| self.carries(after, name)
                ||| exists|i: int|
                    run.next() <= i < names.len() && #[trigger] after.came_with(
                        parent,
                        names,
                        blocks,
                        i,
                        name,
                    )
            }
        &&& after.reserved() == self.reserved()
        &&& after.moved() == self.moved()
        &&& after.ram_inflation() >= self.ram_inflation()
        &&& after.disk_inflation() >= self.disk_inflation()
        // With memory for all that is left nothing is turned away or
        // given up.
        &&& self.free_slots() >= names.len() - run.next() && (link_above(
            parent,
            names,
            run.next() as int,
        ) matches Some(above) ==> self.entries().dom().contains(above@)) ==> {
            &&& step matches ChainStep::Done(report) && report.dropped == 0 && after.free_slots()
                + report.inserted == self.free_slots() + run.stored() && after.entries().dom().len()
                + run.stored() == self.entries().dom().len() + report.inserted
            &&& self.entries().dom().subset_of(after.entries().dom())
            &&& forall|i: int|
                run.next() <= i < names.len() ==> after.entries().dom().contains(
                    (#[trigger] names[i]).0@,
                )
        }
        &&& exists|trace: Seq<Self>, steps: Seq<AdmitStep>|
            {
                &&& #[trigger] self.walks_chain(
                    after,
                    parent,
                    names,
                    blocks,
                    run.next() as int,
                    trace,
                    steps,
                )
                &&& match step {
                    ChainStep::Done(report) => {
                        &&& report.inserted == run.stored() + taken_in(steps)
                        &&& report.deduped == run.found() + found_in(steps)
                        &&& steps.len() > 0 ==> !(steps.last() is Demote)
                    },
                    ChainStep::Demote(demotion, next) => {
                        &&& next.stored() == run.stored() + taken_in(steps)
                        &&& next.found() == run.found() + found_in(steps)
                        &&& steps.len() > 0 && steps.last() == AdmitStep::Demote(demotion)
                    },
                }
            }
        &&& match step {
            ChainStep::Done(report) => {
                &&& report.inserted + report.deduped + report.dropped == names.len()
                &&& report.inserted >= run.stored()
                &&& report.deduped >= run.found()
                &&& report.dropped > 0 ==> after.refuses(
                    names[report.inserted + report.deduped].0,
                    link_above(parent, names, report.inserted + report.deduped),
                )
                &&& report.inserted + report.deduped > run.next() ==> after.entries().dom().contains(
                    names[report.inserted + report.deduped - 1].0@,
                )
                &&& after.counters().inserted_blocks == crate::tier::raised(
                    self.counters().inserted_blocks,
                    report.inserted - run.stored(),
                )
                &&& after.counters().deduped_blocks == crate::tier::raised(
                    self.counters().deduped_blocks,
                    report.deduped - run.found(),
                )
                &&& after.counters().bytes_admitted == crate::tier::raised(
                    self.counters().bytes_admitted,
                    (report.inserted - run.stored()) * self.shape().size(),
                )
                &&& after.reserved_on_disk() == self.reserved_on_disk()
                &&& after.withheld().subset_of(self.withheld())
            },
            ChainStep::Demote(demotion, next) => {
                &&& next.stored() >= run.stored()
                &&& next.found() >= run.found()
                &&& next.next() < names.len()
                &&& after.wants(
                    names[next.next() as int].0,
                    link_above(parent, names, next.next() as int),
                )
                &&& after.honors(demotion)
                &&& demotion.payload() == after.contents(demotion.name())
                &&& demotion.name() != names[next.next() as int].0@
                &&& link_above(parent, names, next.next() as int) matches Some(above)
                    ==> demotion.name() != above@
                &&& !self.reserved_on_disk().contains(demotion.target().number)
                &&& after.reserved_on_disk() == self.reserved_on_disk().insert(
                    demotion.target().number,
                )
                &&& after.withheld().subset_of(
                    if demotion.is_leaf() {
                        self.withheld().insert(demotion.name())
                    } else {
                        self.withheld()
                    },
                )
                &&& after.counters().inserted_blocks == crate::tier::raised(
                    self.counters().inserted_blocks,
                    next.stored() - run.stored(),
                )
                &&& after.counters().deduped_blocks == crate::tier::raised(
                    self.counters().deduped_blocks,
                    next.found() - run.found(),
                )
                &&& after.counters().bytes_admitted == crate::tier::raised(
                    self.counters().bytes_admitted,
                    (next.stored() - run.stored()) * self.shape().size(),
                )
            },
        }
    }

    /// Admit a run of blocks named elsewhere. `parent` is what the first
    /// block attaches to; after that each block's parent is the one before
    /// it. This is the wire's admit path -- a peer sends names and bytes,
    /// never tokens.
    #[verifier::rlimit(40)]
    #[verifier::spinoff_prover]
    pub fn admit_chain(
        &mut self,
        parent: Option<BlockHash>,
        names: &[(BlockHash, u32)],
        blocks: &[&[u8]],
        run: ChainRun,
    ) -> (step: ChainStep)
        requires
            old(self).wf(),
            names@.len() == blocks@.len(),
            run.next() <= names@.len(),
            forall|i: int|
                0 <= i < blocks@.len() ==> (#[trigger] blocks@[i])@.len() == old(
                    self).shape().size(),
        ensures
            final(self).wf(),
            old(self).admits_chain(final(self), parent, names@, blocks@, run, step),
    {
        let total: usize = names.len();
        assert(total == names@.len());
        let mut inserted: usize = run.inserted;
        let mut deduped: usize = run.deduped;
        let mut i: usize = inserted + deduped;
        let ghost mut trace: Seq<Self> = seq![*self];
        let ghost mut steps: Seq<AdmitStep> = Seq::empty();
        assert(Self::is_walk(trace, steps, parent, names@, blocks@, run.next() as int)) by {
            reveal(KvStore::is_walk);
        }
        while i < names.len()
            invariant
                steps.len() == i - run.next(),
                trace.len() == steps.len() + 1,
                trace[0] == *old(self),
                trace.last() == *self,
                Self::is_walk(trace, steps, parent, names@, blocks@, run.next() as int),
                forall|k: int| 0 <= k < steps.len() ==> goes_on(#[trigger] steps[k]),
                inserted == run.stored() + taken_in(steps),
                deduped == run.found() + found_in(steps),
                self.wf(),
                old(self).wf(),
                old(self).same_setup(self),
                old(self).keeps_pinned(self),
                names@.len() == blocks@.len(),
                run.next() <= i <= names@.len(),
                i == inserted + deduped,
                inserted >= run.stored(),
                deduped >= run.found(),
                forall|n: int|
                    0 <= n < blocks@.len() ==> (#[trigger] blocks@[n])@.len() == old(
                        self).shape().size(),
                forall|name: u128| #[trigger]
                    self.entries().dom().contains(name) ==> {
                        ||| old(self).carries(self, name)
                        ||| exists|n: int|
                            run.next() <= n < i && #[trigger] self.came_with(
                                parent,
                                names@,
                                blocks@,
                                n,
                                name,
                            )
                    },
                self.reserved() == old(self).reserved(),
                self.reserved_on_disk() == old(self).reserved_on_disk(),
                self.withheld().subset_of(old(self).withheld()),
                self.moved() == old(self).moved(),
                self.ram_inflation() >= old(self).ram_inflation(),
                self.disk_inflation() >= old(self).disk_inflation(),
                i > run.next() ==> self.entries().dom().contains(names@[i - 1].0@),
                old(self).free_slots() >= names@.len() - run.next() && (link_above(
                    parent,
                    names@,
                    run.next() as int,
                ) matches Some(above) ==> old(self).entries().dom().contains(above@)) ==> {
                    &&& self.free_slots() >= names@.len() - i
                    &&& self.free_slots() + inserted == old(self).free_slots() + run.stored()
                    &&& self.entries().dom().len() + run.stored() == old(
                        self).entries().dom().len() + inserted
                    &&& old(self).entries().dom().subset_of(self.entries().dom())
                    &&& forall|n: int|
                        run.next() <= n < i ==> self.entries().dom().contains(
                            (#[trigger] names@[n]).0@,
                        )
                },
                self.counters().inserted_blocks == crate::tier::raised(
                    old(self).counters().inserted_blocks,
                    inserted - run.stored(),
                ),
                self.counters().deduped_blocks == crate::tier::raised(
                    old(self).counters().deduped_blocks,
                    deduped - run.found(),
                ),
                self.counters().bytes_admitted == crate::tier::raised(
                    old(self).counters().bytes_admitted,
                    (inserted - run.stored()) * old(self).shape().size(),
                ),
            decreases names.len() - i,
        {
            let above: Option<BlockHash> = if i == 0 {
                parent
            } else {
                Some(names[i - 1].0)
            };
            let (hash, depth): (BlockHash, u32) = names[i];
            let ghost before = *self;
            let step = self.admit_block(hash, above, depth, blocks[i]);
            proof {
                assert(above == link_above(parent, names@, i as int));
                before.lemma_chain_grows(
                    self,
                    old(self),
                    parent,
                    names@,
                    blocks@,
                    run.next() as int,
                    i as int,
                    step,
                );
                let (count, size) = (inserted - run.stored(), old(self).shape().size());
                assert((count + 1) * size == count * size + size) by (nonlinear_arith);
                Self::lemma_walk_goes_on(
                    trace,
                    steps,
                    parent,
                    names@,
                    blocks@,
                    run.next() as int,
                    *self,
                    step,
                );
                trace = trace.push(*self);
                steps = steps.push(step);
                if !goes_on(step) {
                    assert(old(self).walks_chain(
                        self,
                        parent,
                        names@,
                        blocks@,
                        run.next() as int,
                        trace,
                        steps,
                    ));
                }
            }
            match step {
                AdmitStep::Done(Admit::Inserted) => {
                    inserted = inserted + 1;
                },
                AdmitStep::Done(Admit::AlreadyPresent) => {
                    deduped = deduped + 1;
                },
                AdmitStep::Done(_) => {
                    // Everything after a failure is an orphan.
                    return ChainStep::Done(
                        AdmitReport { inserted, deduped, dropped: names.len() - i },
                    );
                },
                AdmitStep::Demote(demotion) => {
                    return ChainStep::Demote(demotion, ChainRun { inserted, deduped });
                },
            }
            i = i + 1;
        }
        proof {
            assert(old(self).walks_chain(
                self,
                parent,
                names@,
                blocks@,
                run.next() as int,
                trace,
                steps,
            ));
        }
        ChainStep::Done(AdmitReport { inserted, deduped, dropped: 0 })
    }

    /// Admit the KV a request just computed: `blocks[i]` is the payload for
    /// the i-th full block of `tokens`. The shape the engine connector calls.
    pub fn admit_sequence(
        &mut self,
        tokens: &[TokenId],
        blocks: &[&[u8]],
        run: ChainRun,
    ) -> (step: ChainStep)
        requires
            old(self).wf(),
            blocks@.len() <= tokens@.len() / old(self).shape().tokens_per_block as nat,
            run.next() <= blocks@.len(),
            forall|i: int|
                0 <= i < blocks@.len() ==> (#[trigger] blocks@[i])@.len() == old(
                    self).shape().size(),
        ensures
            final(self).wf(),
            old(self).admits_chain(
                final(self),
                None,
                sequence_links(
                    old(self).root(),
                    old(self).shape().tokens_per_block as nat,
                    tokens@,
                    blocks@.len(),
                ),
                blocks@,
                run,
                step,
            ),
    {
        let hashes = self.hasher.chain(tokens);
        let total: usize = tokens.len();
        assert(total == tokens@.len());
        let width: usize = self.layout.tokens_per_block;
        let count: usize = blocks.len();
        let mut names: Vec<(BlockHash, u32)> = Vec::with_capacity(count);
        let mut i: usize = 0;
        let mut depth: usize = 0;
        while i < count
            invariant
                i <= count <= hashes@.len(),
                names@.len() == i,
                depth == i * width,
                hashes@.len() == tokens@.len() / width as nat,
                width > 0,
                tokens@.len() <= usize::MAX,
                forall|k: int|
                    0 <= k < hashes@.len() ==> (#[trigger] hashes@[k])@ == crate::block::chain_name(
                        self.hasher.root(),
                        width as nat,
                        tokens@,
                        k as nat,
                    ),
                forall|k: int|
                    0 <= k < i ==> #[trigger] names@[k] == sequence_links(
                        self.hasher.root(),
                        width as nat,
                        tokens@,
                        count as nat,
                    )[k],
            decreases count - i,
        {
            proof {
                assert((i + 1) * width == depth + width) by (nonlinear_arith)
                    requires
                        depth == i * width,
                ;
                assert((i + 1) * width <= tokens@.len()) by (nonlinear_arith)
                    requires
                        i + 1 <= tokens@.len() / width as nat,
                        width > 0,
                ;
            }
            depth = depth + width;
            names.push((hashes[i], depth as u32));
            i = i + 1;
        }
        proof {
            assert(names@ =~= sequence_links(
                self.hasher.root(),
                width as nat,
                tokens@,
                count as nat,
            ));
        }
        self.admit_chain(None, names.as_slice(), blocks, run)
    }

    /// A store with nothing in it and without a disk tier, with memory for
    /// `slots` blocks.
    pub open spec fn is_fresh(
        &self,
        model_id: Seq<char>,
        layout: BlockLayout,
        slots: nat,
        costs: C,
    ) -> bool {
        &&& self.model() == model_id
        &&& self.shape() == layout
        &&& self.root() == crate::block::name_of(
            crate::block::namespace_preimage(
                vstd::utf8::encode_utf8(model_id),
                layout,
                crate::block::BlockOrder::VllmNhd,
                crate::block::Shard { rank: 0, count: 1 },
            ),
        )
        &&& self.pricing() == costs
        &&& self.entries() == Map::<u128, Entry>::empty()
        &&& self.slots() == slots
        &&& self.free_slots() == slots
        &&& !self.tiered()
        &&& self.disk_slots() == 0
        &&& self.disk_slots_used() == 0
        &&& self.free_disk_slots() == 0
        &&& self.moved() is None
        &&& self.reserved() == Set::<u32>::empty()
        &&& self.reserved_on_disk() == Set::<u32>::empty()
        &&& self.withheld() == Set::<u128>::empty()
        &&& self.passed_over() == Set::<u128>::empty()
        &&& self.clock() == 0
        &&& self.ram_inflation() == 0
        &&& self.disk_inflation() == 0
        &&& self.ram_candidates() == 0
        &&& self.disk_candidates() == 0
        &&& self.counters() == zero_stats()
    }

    /// A store with nothing in it, in memory that is asked of the operating
    /// system. Where that refuses, its error.
    pub fn new(
        model_id: &str,
        layout: BlockLayout,
        capacity_blocks: usize,
        costs: C,
    ) -> (store: Result<Self, SlabError>)
        requires
            layout.sized(),
            layout.size() > 0,
            0 < capacity_blocks <= u32::MAX,
            layout.size() * capacity_blocks <= usize::MAX,
        ensures
            layout.size() * capacity_blocks > isize::MAX ==> store is Err,
            match store {
                Ok(store) => {
                    &&& crate::slab::is_answer(
                        layout.size() * capacity_blocks,
                        Ok::<memmap2::MmapMut, std::io::Error>(store.mapping()),
                    )
                    &&& store.wf()
                    &&& store.is_fresh(model_id@, layout, capacity_blocks as nat, costs)
                },
                Err(SlabError::MapFailed(error)) => crate::slab::is_answer(
                    layout.size() * capacity_blocks,
                    Err::<memmap2::MmapMut, std::io::Error>(error),
                ),
            },
    {
        let slab = Slab::new(layout.block_bytes(), capacity_blocks);
        Self::from_slab(model_id, layout, slab, costs)
    }

    /// The store over a slab that could be made, with nothing in it, or the
    /// error with which it could not.
    pub fn from_slab(
        model_id: &str,
        layout: BlockLayout,
        slab: Result<Slab, SlabError>,
        costs: C,
    ) -> (store: Result<Self, SlabError>)
        requires
            layout.sized(),
            slab matches Ok(slab) ==> {
                &&& slab.wf()
                &&& slab.width() == layout.size()
                &&& slab.taken() == Set::<u32>::empty()
            },
        ensures
            match slab {
                Ok(slab) => store matches Ok(store) && {
                    &&& store.wf()
                    &&& store.is_fresh(model_id@, layout, slab.slots(), costs)
                    &&& store.mapping() == slab.mapping()
                },
                Err(error) => store == Err::<Self, SlabError>(error),
            },
    {
        let slab: Slab = match slab {
            Err(error) => {
                return Err(error);
            },
            Ok(slab) => slab,
        };
        proof {
            slab.lemma_shape();
            if layout.tokens_per_block == 0 {
                assert(layout.size() == 0) by (nonlinear_arith)
                    requires
                        layout.tokens_per_block == 0,
                        layout.size() == 2 * layout.num_layers * layout.tokens_per_block
                            * layout.num_kv_heads * layout.head_dim * crate::block::dtype_size(
                            layout.dtype,
                        ),
                ;
            }
        }
        let hasher = PrefixHasher::new(model_id, &layout);
        let store = KvStore {
            model_id: model_id.to_owned(),
            layout,
            hasher,
            slab,
            index: Index::new(),
            disk: None,
            ram_policy: GreedyDual::new(),
            disk_policy: GreedyDual::new(),
            costs,
            stats: Stats::default(),
            ledger: Ghost(
                Ledger {
                    ram_owner: Map::empty(),
                    ram_held: Set::empty(),
                    disk_owner: Map::empty(),
                    disk_held: Set::empty(),
                    image: Map::empty(),
                    loose: Set::empty(),
                    parked: Set::empty(),
                },
            ),
        };
        Ok(store)
    }

    /// Replace the costs, which are per-model. The clocks start over, and what
    /// is here already is no candidate until it is next used.
    pub fn with_cost_model(self, costs: C) -> (store: Self)
        requires
            self.wf(),
        ensures
            store.wf(),
            store.pricing() == costs,
            store.model() == self.model(),
            store.shape() == self.shape(),
            store.root() == self.root(),
            store.slots() == self.slots(),
            store.tiered() == self.tiered(),
            store.disk_slots() == self.disk_slots(),
            store.disk_slots_used() == self.disk_slots_used(),
            store.entries() == self.entries(),
            forall|name: u128| #[trigger]
                self.entries().dom().contains(name) ==> store.contents(name) == self.contents(name),
            store.free_slots() == self.free_slots(),
            store.free_disk_slots() == self.free_disk_slots(),
            store.moved() == self.moved(),
            store.reserved() == self.reserved(),
            store.reserved_on_disk() == self.reserved_on_disk(),
            store.withheld() == self.withheld().union(self.entries().dom()),
            store.passed_over() == self.passed_over(),
            store.clock() == self.clock(),
            store.ram_inflation() == 0,
            store.disk_inflation() == 0,
            store.ram_candidates() == 0,
            store.disk_candidates() == 0,
            store.counters() == self.counters(),
    {
        let mut store = self;
        store.costs = costs;
        store.ram_policy = GreedyDual::new();
        store.disk_policy = GreedyDual::new();
        proof {
            store.ledger@.loose = store.ledger@.loose.union(store.index@.dom());
        }
        store
    }

    /// Attach a disk tier. Without one, eviction means deletion.
    pub fn with_disk_tier(self, tier: DiskTier) -> (store: Self)
        requires
            self.wf(),
            self.disk_slots_used() == 0,
            tier.wf(),
            tier.taken() == Set::<u32>::empty(),
            tier.width() == self.shape().size(),
        ensures
            store.wf(),
            store.tiered(),
            store.pricing() == self.pricing(),
            store.model() == self.model(),
            store.shape() == self.shape(),
            store.root() == self.root(),
            store.slots() == self.slots(),
            store.entries() == self.entries(),
            forall|name: u128| #[trigger]
                self.entries().dom().contains(name) ==> store.contents(name) == self.contents(name),
            store.free_slots() == self.free_slots(),
            store.disk_slots() == tier.slots(),
            store.disk_slots_used() == 0,
            store.free_disk_slots() == tier.stack().len(),
            store.moved() == Some(tier.moved()),
            store.reserved() == self.reserved(),
            store.reserved_on_disk() == self.reserved_on_disk(),
            store.withheld() == self.withheld(),
            store.passed_over() == self.passed_over(),
            store.clock() == self.clock(),
            store.ram_inflation() == self.ram_inflation(),
            store.disk_inflation() == self.disk_inflation(),
            store.counters() == self.counters(),
    {
        let mut store = self;
        proof {
            if let Some(disk) = store.disk {
                disk.lemma_shape();
                assert(disk.taken() =~= Set::<u32>::empty());
            }
        }
        store.disk = Some(tier);
        store
    }

    /// Replace the costs. Clocks and standings stay as they are.
    pub fn with_tier_costs(self, costs: C) -> (store: Self)
        requires
            self.wf(),
        ensures
            store.wf(),
            store.pricing() == costs,
            store.model() == self.model(),
            store.shape() == self.shape(),
            store.root() == self.root(),
            store.slots() == self.slots(),
            store.tiered() == self.tiered(),
            store.disk_slots() == self.disk_slots(),
            store.disk_slots_used() == self.disk_slots_used(),
            store.entries() == self.entries(),
            forall|name: u128| #[trigger]
                self.entries().dom().contains(name) ==> store.contents(name) == self.contents(name),
            store.free_slots() == self.free_slots(),
            store.free_disk_slots() == self.free_disk_slots(),
            store.moved() == self.moved(),
            store.reserved() == self.reserved(),
            store.reserved_on_disk() == self.reserved_on_disk(),
            store.withheld() == self.withheld(),
            store.passed_over() == self.passed_over(),
            store.clock() == self.clock(),
            store.ram_inflation() == self.ram_inflation(),
            store.disk_inflation() == self.disk_inflation(),
            store.ram_candidates() == self.ram_candidates(),
            store.disk_candidates() == self.disk_candidates(),
            store.counters() == self.counters(),
    {
        let mut store = self;
        store.costs = costs;
        store
    }

    pub fn disk_stats(&self) -> (stats: Option<DiskStats>)
        ensures
            stats == self.moved(),
    {
        match &self.disk {
            Some(disk) => Some(disk.stats()),
            None => None,
        }
    }

    /// Slots on disk in use.
    pub fn disk_blocks(&self) -> (blocks: usize)
        requires
            self.wf(),
        ensures
            blocks == self.disk_slots_used(),
            blocks + self.free_disk_slots() == self.disk_slots(),
    {
        match &self.disk {
            Some(disk) => disk.live(),
            None => 0,
        }
    }

    /// Where a slot starts in the disk tier's file.
    pub fn disk_offset(&self, slot: DiskSlot) -> (offset: Option<u64>)
        requires
            self.wf(),
        ensures
            offset == (if slot.number < self.disk_slots() {
                Some((slot.number * self.shape().size()) as u64)
            } else {
                None
            }),
    {
        match &self.disk {
            Some(disk) => if slot.index() < disk.capacity() {
                Some(disk.offset(slot))
            } else {
                None
            },
            None => None,
        }
    }

    pub fn model_id(&self) -> (model: &str)
        ensures
            model@ == self.model(),
    {
        self.model_id.as_str()
    }

    pub fn layout(&self) -> (layout: &BlockLayout)
        ensures
            *layout == self.shape(),
    {
        &self.layout
    }

    /// Bytes in one block.
    pub fn block_bytes(&self) -> (bytes: usize)
        requires
            self.wf(),
        ensures
            bytes == self.shape().size(),
    {
        self.layout.block_bytes()
    }

    pub fn stats(&self) -> (stats: Stats)
        ensures
            stats == self.counters(),
    {
        self.stats
    }

    /// Read-only view of the index, for tests and inspection.
    pub fn index(&self) -> (index: &Index)
        requires
            self.wf(),
        ensures
            index.wf(),
            index@ == self.entries(),
            index.clock() == self.clock(),
    {
        &self.index
    }

    /// Blocks the policy is currently tracking as eviction candidates,
    /// including stale entries awaiting compaction.
    pub fn eviction_candidates(&self) -> (count: usize)
        ensures
            self.ram_candidates() + self.disk_candidates() <= usize::MAX ==> count
                == self.ram_candidates() + self.disk_candidates(),
            self.ram_candidates() + self.disk_candidates() > usize::MAX ==> count == usize::MAX,
    {
        self.ram_policy.candidates().saturating_add(self.disk_policy.candidates())
    }

    /// Slots in the RAM tier, whether or not they are in use.
    pub fn ram_capacity(&self) -> (capacity: usize)
        ensures
            capacity == self.slots(),
    {
        self.slab.capacity()
    }

    /// Slots in the RAM tier in use.
    pub fn ram_blocks(&self) -> (blocks: usize)
        requires
            self.wf(),
        ensures
            blocks + self.free_slots() == self.slots(),
    {
        proof {
            self.slab.lemma_shape();
        }
        self.slab.live()
    }

    pub fn resident_blocks(&self) -> (blocks: usize)
        ensures
            blocks == self.entries().len(),
    {
        self.index.len()
    }
}

} // verus!
