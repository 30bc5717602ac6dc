//! Demotion to disk, promotion back, and the choice between them and dropping.

use std::ops::{Deref, DerefMut};

use kvtier::block::{BlockHash, BlockLayout, PrefixHasher, TokenId};
use kvtier::evict::Costs;
use kvtier::slab::PinnedBlock;
use kvtier::store::{
    Admit, AdmitReport, AdmitStep, ChainRun, ChainStep, Demotion, FetchPart, FetchRun, FetchStep,
    KvStore, PinRun, PinStep, Promotion,
};
use kvtier::tier::DiskTier;
use kvtier::trace::{self, SplitMix64};

const MODEL: &str = "tier-test";

/// Recompute cost in units where a block at depth zero costs 1: the linear
/// layers cost the same at any depth, attention grows with it.
struct Model {
    attention_crossover_tokens: f64,
    fetch_secs: f64,
    recompute_secs: f64,
}

impl Model {
    fn recompute_cost(&self, depth_tokens: u32) -> f64 {
        1.0 + f64::from(depth_tokens) / self.attention_crossover_tokens
    }
}

impl Default for Model {
    fn default() -> Self {
        Model {
            attention_crossover_tokens: 30_000.0,
            fetch_secs: 100e-6 + 2048.0 / 3.0e9,
            recompute_secs: 3.3e-3,
        }
    }
}

impl Costs for Model {
    fn priority_for(&self, inflation: u64, depth_tokens: u32) -> u64 {
        (f64::from_bits(inflation) + self.recompute_cost(depth_tokens)).to_bits()
    }

    fn worth_demoting(&self, depth_tokens: u32) -> bool {
        self.fetch_secs < self.recompute_secs * self.recompute_cost(depth_tokens)
    }
}

/// A store with a disk behind it. The disk is a list of blocks; the store says
/// what goes where and is told how it went.
struct Tiered {
    store: KvStore<Model>,
    disk: Vec<Vec<u8>>,
}

impl Tiered {
    fn new(layout: BlockLayout, ram_blocks: usize, disk_blocks: usize) -> Self {
        let tier = DiskTier::new(layout.block_bytes(), disk_blocks);
        Tiered {
            store: KvStore::new(MODEL, layout, ram_blocks, Model::default())
                .unwrap()
                .with_disk_tier(tier),
            disk: vec![Vec::new(); disk_blocks],
        }
    }

    fn demote(&mut self, demotion: Demotion) {
        let slot = demotion.disk_slot();
        assert_eq!(
            self.store.disk_offset(slot),
            Some((slot.index() * demotion.bytes().len()) as u64)
        );
        self.disk[slot.index()] = demotion.bytes().to_vec();
        self.store.finish_demotion(demotion, true);
    }

    fn admit_one(
        &mut self,
        hash: BlockHash,
        parent: Option<BlockHash>,
        depth_tokens: u32,
        data: &[u8],
    ) -> Admit {
        loop {
            match self.store.admit_block(hash, parent, depth_tokens, data) {
                AdmitStep::Done(outcome) => return outcome,
                AdmitStep::Demote(demotion) => self.demote(demotion),
            }
        }
    }

    fn admit_sequence(&mut self, tokens: &[TokenId], blocks: &[&[u8]]) -> AdmitReport {
        let mut run = ChainRun::new();
        loop {
            match self.store.admit_sequence(tokens, blocks, run) {
                ChainStep::Done(report) => return report,
                ChainStep::Demote(demotion, next) => {
                    self.demote(demotion);
                    run = next;
                }
            }
        }
    }

    fn begin_fetch(&mut self, hashes: &[BlockHash]) -> Vec<FetchPart> {
        let mut run = FetchRun::new();
        loop {
            match self.store.begin_fetch(hashes, run) {
                FetchStep::Done(parts) => return parts,
                FetchStep::Demote(demotion, next) => {
                    self.demote(demotion);
                    run = next;
                }
            }
        }
    }

    fn fill(&self, promotion: &mut Promotion) {
        promotion.fill(&self.disk[promotion.disk_slot().index()]);
    }

    fn pin_run(&mut self, hashes: &[BlockHash]) -> Vec<PinnedBlock> {
        let mut run = PinRun::new();
        loop {
            match self.store.pin_run(hashes, run) {
                PinStep::Done(blocks) => return blocks,
                PinStep::Demote(demotion, next) => {
                    self.demote(demotion);
                    run = next;
                }
                PinStep::Read(mut next) => {
                    let slot = next.source().unwrap();
                    next.fill(&self.disk[slot.index()]);
                    run = next;
                }
            }
        }
    }
}

impl Deref for Tiered {
    type Target = KvStore<Model>;

    fn deref(&self) -> &KvStore<Model> {
        &self.store
    }
}

impl DerefMut for Tiered {
    fn deref_mut(&mut self) -> &mut KvStore<Model> {
        &mut self.store
    }
}

fn hasher() -> PrefixHasher {
    PrefixHasher::new(MODEL, &BlockLayout::tiny())
}

fn tokens(count: usize, seed: u64) -> Vec<TokenId> {
    SplitMix64::new(seed).tokens(count, 32_000)
}

fn tiered(ram_blocks: usize, disk_blocks: usize) -> Tiered {
    Tiered::new(BlockLayout::tiny(), ram_blocks, disk_blocks)
}

fn admit_leaf(store: &mut Tiered, seed: u64, depth_tokens: u32) -> BlockHash {
    let block_bytes = store.layout().block_bytes();
    let hash = hasher().chain(&tokens(16, seed))[0];
    let payload = trace::block_payload(hash, block_bytes);
    assert_eq!(
        store.admit_one(hash, None, depth_tokens, &payload),
        Admit::Inserted
    );
    hash
}

fn expected(store: &Tiered, hash: BlockHash) -> Vec<u8> {
    trace::block_payload(hash, store.layout().block_bytes())
}

/// Blocks the store still holds but has pushed out of RAM. Which ones those
/// are is the policy's business, not the test's.
fn demoted(store: &Tiered, hashes: &[BlockHash]) -> Vec<BlockHash> {
    hashes
        .iter()
        .copied()
        .filter(|&hash| store.contains(hash) && store.read(hash).is_none())
        .collect()
}

/// Fill a store past its RAM capacity and report every block admitted.
fn overfill(store: &mut Tiered, count: u64) -> Vec<BlockHash> {
    overfill_from(store, 1, count)
}

/// Same, from a seed range that will not collide with an earlier call.
fn overfill_from(store: &mut Tiered, start: u64, count: u64) -> Vec<BlockHash> {
    (start..start + count)
        .map(|seed| admit_leaf(store, seed, 16))
        .collect()
}

#[test]
fn blocks_pushed_out_of_ram_land_on_disk() {
    let mut store = tiered(4, 32);
    let admitted = overfill(&mut store, 7);

    assert_eq!(store.resident_blocks(), 7, "nothing was actually lost");
    assert_eq!(demoted(&store, &admitted).len(), 3);
    assert_eq!(store.disk_blocks(), 3);
    assert_eq!(store.stats().evicted_blocks, 0, "demoted, not dropped");
}

#[test]
fn a_demoted_block_still_counts_as_a_hit() {
    let mut store = tiered(4, 32);
    let admitted = overfill(&mut store, 7);
    let off_ram = demoted(&store, &admitted);

    assert_eq!(
        store.match_prefix(&off_ram),
        off_ram.len(),
        "a hit is a hit"
    );
}

#[test]
fn a_hit_on_a_demoted_block_reads_it_back() {
    let mut store = tiered(4, 32);
    let admitted = overfill(&mut store, 7);
    let target = demoted(&store, &admitted)[0];

    let pinned = store.pin_run(&[target]);
    assert_eq!(pinned.len(), 1);
    assert_eq!(
        pinned[0].bytes(),
        expected(&store, target).as_slice(),
        "bytes must survive the round trip through the file"
    );
    store.unpin_all(&pinned);

    assert_eq!(store.stats().promoted_blocks, 1);
    assert!(store.read(target).is_some(), "back in RAM");
    assert_eq!(store.disk_stats().unwrap().reads, 1);
}

#[test]
fn a_block_too_cheap_to_be_worth_a_disk_slot_is_dropped() {
    // With rebuilding nearly free, a read back costs more than a recompute,
    // so the disk slot does not pay for itself.
    let layout = BlockLayout::tiny();
    let tier = DiskTier::new(layout.block_bytes(), 32);
    let mut store = Tiered {
        store: KvStore::new(MODEL, layout, 2, Model::default())
            .unwrap()
            .with_disk_tier(tier)
            .with_tier_costs(Model {
                recompute_secs: 1e-9,
                ..Model::default()
            }),
        disk: vec![Vec::new(); 32],
    };

    let admitted = overfill(&mut store, 3);

    assert_eq!(store.resident_blocks(), 2, "one block is simply gone");
    assert_eq!(demoted(&store, &admitted).len(), 0);
    assert_eq!(store.disk_blocks(), 0, "nothing was written to disk");
    assert_eq!(store.stats().demoted_blocks, 0);
    assert_eq!(store.stats().evicted_blocks, 1);
}

#[test]
fn demotion_can_take_a_block_that_dropping_could_not() {
    // Dropping is leaf-only: an internal block would strand its children.
    // Demotion has no such constraint, because a demoted parent is still
    // there for them.
    let mut store = tiered(4, 32);
    let block_bytes = store.layout().block_bytes();

    // One chain of 4 blocks, so blocks 0..2 are internal.
    let sequence = tokens(64, 10);
    let hashes = hasher().chain(&sequence);
    let payloads: Vec<Vec<u8>> = hashes
        .iter()
        .map(|&hash| trace::block_payload(hash, block_bytes))
        .collect();
    let refs: Vec<&[u8]> = payloads.iter().map(|p| p.as_slice()).collect();
    store.admit_sequence(&sequence, &refs);
    assert_eq!(store.resident_blocks(), 4);

    // A block from an unrelated chain forces something out of RAM.
    admit_leaf(&mut store, 99, 16);

    assert_eq!(store.stats().evicted_blocks, 0, "nothing was lost");
    assert!(store.stats().demoted_blocks >= 1);
    assert_eq!(store.match_prefix(&hashes), 4, "the chain is still whole");
}

#[test]
fn a_full_disk_drops_its_cheapest_leaf() {
    let mut store = tiered(2, 2);
    let admitted = overfill(&mut store, 8);

    assert_eq!(store.resident_blocks(), 4, "two tiers of two");
    assert!(store.stats().evicted_blocks > 0, "the disk had to give too");
    assert!(
        store.contains(admitted[7]),
        "the newest block must be the one that survived"
    );
}

#[test]
fn a_promoted_block_can_be_demoted_again() {
    let mut store = tiered(2, 8);
    let kept = admit_leaf(&mut store, 1, 16);
    let mut seed = 100;

    for round in 0..3 {
        // Let it go cold first: one admission per round would leave it the most
        // recently used block in RAM, and it would never leave.
        for _ in 0..3 {
            admit_leaf(&mut store, seed, 16);
            seed += 1;
        }
        assert!(
            store.read(kept).is_none(),
            "should be on disk by round {round}"
        );

        // The pin pulls it back, and the next round pushes it out again.
        let pinned = store.pin_run(&[kept]);
        assert_eq!(pinned.len(), 1, "still reachable on round {round}");
        assert_eq!(pinned[0].bytes(), expected(&store, kept).as_slice());
        store.unpin_all(&pinned);
    }

    let stats = store.stats();
    assert!(stats.promoted_blocks >= 2 && stats.demoted_blocks >= 2);
    assert!(store.contains(kept));
}

#[test]
fn a_tiered_store_holds_far_more_than_its_ram() {
    let mut store = tiered(8, 256);
    overfill(&mut store, 200);

    assert_eq!(store.resident_blocks(), 200, "all of it is still cached");
    assert_eq!(store.disk_blocks(), 192);
    assert_eq!(store.stats().evicted_blocks, 0, "nothing needed dropping");
}

#[test]
fn a_fetch_reserves_then_publishes() {
    let mut store = tiered(4, 32);
    let admitted = overfill(&mut store, 7);
    let off_ram = demoted(&store, &admitted);
    assert!(!off_ram.is_empty());

    // Phase one: no I/O has happened, so the block is still on disk.
    let mut parts = store.begin_fetch(&off_ram);
    assert_eq!(parts.len(), off_ram.len());
    assert_eq!(store.disk_stats().unwrap().reads, 0);

    // Phase two, which the server runs with the lock released.
    for part in &mut parts {
        if let FetchPart::Pending(promotion) = part {
            store.fill(promotion);
        }
    }

    // Phase three: publish and hand back the run.
    let pinned = store.finish_fetch(parts);
    assert_eq!(pinned.len(), off_ram.len());
    for block in &pinned {
        assert_eq!(block.bytes(), expected(&store, block.hash()).as_slice());
    }
    store.unpin_all(&pinned);
    assert_eq!(store.stats().promoted_blocks as usize, off_ram.len());
}

#[test]
fn an_unfilled_block_truncates_the_run_instead_of_serving_a_hole() {
    let mut store = tiered(4, 32);
    let admitted = overfill(&mut store, 7);
    let off_ram = demoted(&store, &admitted);
    assert!(off_ram.len() >= 2);

    // Fill everything except the first demoted block, as a failed read would.
    let mut parts = store.begin_fetch(&off_ram);
    let mut seen_pending = false;
    for part in &mut parts {
        if let FetchPart::Pending(promotion) = part {
            if seen_pending {
                store.fill(promotion);
            }
            seen_pending = true;
        }
    }

    let pinned = store.finish_fetch(parts);
    assert!(
        pinned.len() < off_ram.len(),
        "the run must stop at the hole"
    );
    store.unpin_all(&pinned);

    // Everything reserved was given back: no leaked pins, no leaked slots.
    assert_eq!(store.resident_blocks(), 7);
    for &hash in &admitted {
        assert!(store.contains(hash));
    }
}

#[test]
fn a_block_being_read_cannot_be_evicted_underneath() {
    let mut store = tiered(4, 8);
    let admitted = overfill(&mut store, 6);
    let off_ram = demoted(&store, &admitted);

    // Reserve the run, then pile on pressure before the reads land.
    let mut parts = store.begin_fetch(&off_ram);
    for seed in 100..120 {
        admit_leaf(&mut store, seed, 16);
    }

    for part in &mut parts {
        if let FetchPart::Pending(promotion) = part {
            store.fill(promotion);
        }
    }

    let pinned = store.finish_fetch(parts);
    assert_eq!(
        pinned.len(),
        off_ram.len(),
        "pins held through the pressure"
    );
    for block in &pinned {
        assert_eq!(block.bytes(), expected(&store, block.hash()).as_slice());
    }
    store.unpin_all(&pinned);
}

/// Drive one writeback round the way the server's loop does.
fn run_writeback(store: &mut Tiered, max: usize) -> usize {
    let mut jobs = store.begin_writeback(max);
    let count = jobs.len();
    for job in &mut jobs {
        store.disk[job.disk_slot().index()] = job.bytes().to_vec();
        job.mark_written();
    }
    store.finish_writeback(jobs);
    count
}

#[test]
fn a_freshly_admitted_block_is_dirty_until_written_back() {
    let mut store = tiered(4, 32);
    overfill(&mut store, 4);
    assert_eq!(store.dirty_blocks(), 4, "nothing has been copied yet");

    assert_eq!(run_writeback(&mut store, 4), 4);
    assert_eq!(store.dirty_blocks(), 0);
    assert_eq!(store.stats().written_back, 4);
    assert_eq!(store.resident_blocks(), 4, "still all in RAM");
}

#[test]
fn evicting_a_clean_block_costs_no_write() {
    let mut store = tiered(4, 32);
    overfill(&mut store, 4);
    run_writeback(&mut store, 4);

    // RAM is full and every block already has a copy on disk.
    admit_leaf(&mut store, 99, 16);

    let stats = store.stats();
    assert_eq!(stats.demoted_blocks, 1, "something left RAM");
    assert_eq!(
        stats.blocking_demotions, 0,
        "and it did not write under the lock"
    );
}

#[test]
fn without_writeback_the_admit_path_pays_for_the_write() {
    // The behaviour writeback exists to remove, kept as the contrast.
    let mut store = tiered(4, 32);
    overfill(&mut store, 5);

    let stats = store.stats();
    assert_eq!(stats.demoted_blocks, 1);
    assert_eq!(stats.blocking_demotions, 1);
    assert_eq!(stats.written_back, 0);
}

#[test]
fn writeback_cleans_only_what_it_is_asked_for() {
    let mut store = tiered(8, 32);
    overfill(&mut store, 8);

    assert_eq!(run_writeback(&mut store, 3), 3);
    assert_eq!(store.dirty_blocks(), 5);
    assert_eq!(
        run_writeback(&mut store, 100),
        5,
        "the rest on the next pass"
    );
    assert_eq!(store.dirty_blocks(), 0);
}

#[test]
fn an_unflushed_job_leaves_its_block_dirty_and_frees_the_slot() {
    let mut store = tiered(4, 32);
    overfill(&mut store, 4);

    // Reserve the disk slots, then fail every write.
    let jobs = store.begin_writeback(4);
    assert_eq!(jobs.len(), 4);
    store.finish_writeback(jobs);

    assert_eq!(store.dirty_blocks(), 4, "still needs writing");
    assert_eq!(store.stats().written_back, 0);
    assert_eq!(store.disk_blocks(), 0, "reserved slots were given back");
}

#[test]
fn a_written_back_block_reads_correctly_after_eviction() {
    let mut store = tiered(4, 32);
    let admitted = overfill(&mut store, 4);
    run_writeback(&mut store, 4);

    // Push them all out of RAM, using only the disk copies made above.
    overfill_from(&mut store, 500, 8);

    let off_ram = demoted(&store, &admitted);
    assert!(!off_ram.is_empty());
    let pinned = store.pin_run(&off_ram);
    assert_eq!(pinned.len(), off_ram.len());
    for block in &pinned {
        assert_eq!(
            block.bytes(),
            expected(&store, block.hash()).as_slice(),
            "the copy writeback made must be the real bytes"
        );
    }
    store.unpin_all(&pinned);
}

#[test]
fn a_promoted_block_keeps_its_disk_copy() {
    // It came off disk, so the copy is already correct. Keeping it means
    // pushing the block back out is free.
    let mut store = tiered(4, 32);
    let admitted = overfill(&mut store, 7);
    let target = demoted(&store, &admitted)[0];

    let pinned = store.pin_run(&[target]);
    store.unpin_all(&pinned);

    assert!(
        !store.index().get(target).unwrap().place.is_dirty(),
        "a block read off disk is already clean, so pushing it back out is free"
    );
}

#[test]
fn a_failed_write_drops_a_leaf_and_gives_its_slots_back() {
    let mut store = tiered(2, 8);
    let admitted = overfill(&mut store, 2);

    let hash = hasher().chain(&tokens(16, 77))[0];
    let payload = expected(&store, hash);
    match store.admit_block(hash, None, 16, &payload) {
        AdmitStep::Demote(demotion) => {
            assert!(admitted.contains(&demotion.hash()));
            assert_eq!(
                demotion.bytes(),
                expected(&store, demotion.hash()).as_slice()
            );
            store.finish_demotion(demotion, false);
        }
        AdmitStep::Done(_) => panic!("the block has to be written first"),
    }
    assert_eq!(store.admit_one(hash, None, 16, &payload), Admit::Inserted);
    assert_eq!(store.resident_blocks(), 2);
    assert_eq!(store.disk_blocks(), 0);
    assert_eq!(store.stats().evicted_blocks, 1);
    assert_eq!(store.stats().demoted_blocks, 0);
}

#[test]
fn a_failed_read_ends_the_run() {
    let mut store = tiered(2, 8);
    let admitted = overfill(&mut store, 4);
    let off_ram = demoted(&store, &admitted);

    let mut run = PinRun::new();
    loop {
        match store.store.pin_run(&off_ram, run) {
            PinStep::Done(blocks) => {
                assert!(blocks.is_empty());
                break;
            }
            PinStep::Demote(demotion, next) => {
                store.demote(demotion);
                run = next;
            }
            // Nothing is filled in.
            PinStep::Read(next) => {
                assert!(next.source().is_some());
                run = next;
            }
        }
    }
    assert_eq!(store.resident_blocks(), 4);
    assert_eq!(store.stats().promoted_blocks, 0);
    // Nothing stays reserved or pinned: the next round works.
    let pinned = store.pin_run(&off_ram[..1]);
    assert_eq!(pinned[0].bytes(), expected(&store, off_ram[0]).as_slice());
    store.unpin_all(&pinned);
}

#[test]
fn a_block_that_does_not_come_back_is_left_as_it_was() {
    let mut store = tiered(2, 8);
    let admitted = overfill(&mut store, 4);
    let off_ram = demoted(&store, &admitted);
    let before = *store.index().get(off_ram[0]).unwrap();

    // The disk gives nothing back.
    let mut run = PinRun::new();
    loop {
        match store.store.pin_run(&off_ram[..1], run) {
            PinStep::Done(blocks) => {
                assert!(blocks.is_empty());
                break;
            }
            PinStep::Demote(demotion, next) => {
                store.demote(demotion);
                run = next;
            }
            PinStep::Read(next) => run = next,
        }
    }
    assert_eq!(*store.index().get(off_ram[0]).unwrap(), before);

    // There is no memory to bring it back to.
    let held: Vec<BlockHash> = admitted
        .iter()
        .copied()
        .filter(|&hash| store.read(hash).is_some())
        .collect();
    let pinned: Vec<PinnedBlock> = held.iter().flat_map(|&hash| store.pin_run(&[hash])).collect();
    let later = overfill_from(&mut store, 50, 1);
    let more = store.pin_run(&later);
    assert!(store.pin_run(&off_ram[..1]).is_empty());
    assert_eq!(*store.index().get(off_ram[0]).unwrap(), before);
    store.unpin_all(&more);
    store.unpin_all(&pinned);

    // The next use is the one after the last that took place.
    let newest = |store: &Tiered, hashes: &[BlockHash]| {
        hashes
            .iter()
            .map(|&hash| store.index().get(hash).unwrap().last_access)
            .max()
    };
    let last = newest(&store, &[admitted.clone(), later.clone()].concat());
    let pinned = store.pin_run(&off_ram[..1]);
    assert_eq!(pinned.len(), 1);
    let after = store.index().get(off_ram[0]).unwrap();
    assert_eq!(Some(after.last_access), last.map(|time| time + 1));
    assert!(after.place != before.place);
    store.unpin_all(&pinned);
}

#[test]
fn a_fetch_leaves_no_trace() {
    let mut store = tiered(4, 32);
    let admitted = overfill(&mut store, 7);
    let off_ram = demoted(&store, &admitted);
    let before = store.index().leaves().len();

    let mut parts = store.begin_fetch(&off_ram);
    for part in &mut parts {
        if let FetchPart::Pending(promotion) = part {
            store.fill(promotion);
        }
    }
    let pinned = store.finish_fetch(parts);
    assert_eq!(store.index().leaves().len(), before - pinned.len());
    store.unpin_all(&pinned);
    assert_eq!(store.index().leaves().len(), before);
    // Slots in memory hold blocks or are free: none is lost.
    assert_eq!(store.ram_blocks(), 4);
    assert_eq!(store.ram_capacity(), 4);
}

#[test]
fn new_costs_keep_what_is_cached() {
    let mut store = tiered(4, 32);
    let admitted = overfill(&mut store, 6);
    let disk = std::mem::take(&mut store.disk);
    let mut store = Tiered {
        store: store.store.with_cost_model(Model {
            attention_crossover_tokens: 10.0,
            ..Model::default()
        }),
        disk,
    };
    // Nothing is a candidate until it is next used, so nothing gives way.
    assert_eq!(store.eviction_candidates(), 0);
    let data = vec![7u8; store.block_bytes()];
    let newcomer = hasher().child(hasher().namespace(), &tokens(16, 99));
    assert_eq!(store.admit_one(newcomer, None, 16, &data), Admit::OutOfSpace);

    assert_eq!(store.match_prefix(&admitted), 6);
    assert_eq!(store.eviction_candidates(), 6);
    for &hash in &admitted {
        let pinned = store.pin_run(&[hash]);
        assert_eq!(pinned[0].bytes(), expected(&store, hash).as_slice());
        store.unpin_all(&pinned);
    }
    assert_eq!((store.model_id(), store.block_bytes()), (MODEL, 2048));
}
