//! End-to-end behaviour of the store in memory.

use kvtier::block::{BlockHash, BlockLayout, TokenId};
use kvtier::demo::{admit_completed, completed_payloads, probe, Tally};
use kvtier::evict::Costs;
use kvtier::slab::{Slab, SlabError};
use kvtier::store::{Admit, AdmitReport, AdmitStep, ChainRun, ChainStep, KvStore};
use kvtier::trace::{self, SplitMix64, WorkloadConfig};

const TPB: usize = 16;

/// Recompute cost in units where a block at depth zero costs 1: the linear
/// layers cost the same at any depth, attention grows with it.
struct Model {
    attention_crossover_tokens: f64,
    fetch_secs: f64,
    recompute_secs: f64,
}

impl Model {
    fn recompute_cost(&self, depth_tokens: u32) -> f64 {
        1.0 + f64::from(depth_tokens) / self.attention_crossover_tokens
    }
}

impl Default for Model {
    fn default() -> Self {
        Model {
            attention_crossover_tokens: 30_000.0,
            fetch_secs: 100e-6 + 2048.0 / 3.0e9,
            recompute_secs: 3.3e-3,
        }
    }
}

impl Costs for Model {
    fn priority_for(&self, inflation: u64, depth_tokens: u32) -> u64 {
        (f64::from_bits(inflation) + self.recompute_cost(depth_tokens)).to_bits()
    }

    fn worth_demoting(&self, depth_tokens: u32) -> bool {
        self.fetch_secs < self.recompute_secs * self.recompute_cost(depth_tokens)
    }
}

/// Admit one block into a store with no disk tier.
fn admit_one(
    store: &mut KvStore<Model>,
    hash: BlockHash,
    parent: Option<BlockHash>,
    depth_tokens: u32,
    data: &[u8],
) -> Admit {
    match store.admit_block(hash, parent, depth_tokens, data) {
        AdmitStep::Done(outcome) => outcome,
        AdmitStep::Demote(_) => unreachable!(),
    }
}

/// Admit a sequence into a store with no disk tier.
fn admit_sequence(store: &mut KvStore<Model>, tokens: &[TokenId], blocks: &[&[u8]]) -> AdmitReport {
    match store.admit_sequence(tokens, blocks, ChainRun::new()) {
        ChainStep::Done(report) => report,
        ChainStep::Demote(..) => unreachable!(),
    }
}

/// Admit every full block of a sequence, generating payloads from names.
fn admit_all(store: &mut KvStore<Model>, tokens: &[TokenId]) {
    let block_bytes = store.layout().block_bytes();
    let lookup = store.lookup(tokens);
    let payloads: Vec<Vec<u8>> = lookup
        .hashes
        .iter()
        .map(|&hash| trace::block_payload(hash, block_bytes))
        .collect();
    let refs: Vec<&[u8]> = payloads.iter().map(|p| p.as_slice()).collect();
    admit_sequence(store, tokens, &refs);
}

fn new_store(capacity_blocks: usize) -> KvStore<Model> {
    KvStore::new("test-model", BlockLayout::tiny(), capacity_blocks, Model::default()).unwrap()
}

#[test]
fn cold_lookup_misses_everything() {
    let mut store = new_store(64);
    let mut rng = SplitMix64::new(1);
    let tokens = rng.tokens(64, 32_000);

    let lookup = store.lookup(&tokens);
    assert_eq!(lookup.hashes.len(), 4);
    assert_eq!(lookup.matched, 0);
    assert_eq!(lookup.hit_tokens(), 0);
    assert_eq!(lookup.missing().len(), 4);
}

#[test]
fn round_trip_returns_the_bytes_that_went_in() {
    let mut store = new_store(64);
    let mut rng = SplitMix64::new(2);
    let tokens = rng.tokens(64, 32_000);
    admit_all(&mut store, &tokens);

    let lookup = store.lookup(&tokens);
    assert!(lookup.is_full_hit());
    for &hash in &lookup.hashes {
        let expected = trace::block_payload(hash, store.layout().block_bytes());
        assert_eq!(store.read(hash).unwrap(), expected.as_slice());
    }
}

#[test]
fn a_second_request_sharing_a_prefix_hits_on_it() {
    let mut store = new_store(64);
    let mut rng = SplitMix64::new(3);

    let system_prompt = rng.tokens(48, 32_000); // 3 blocks
    let mut first = system_prompt.clone();
    first.extend(rng.tokens(32, 32_000));
    let mut second = system_prompt.clone();
    second.extend(rng.tokens(32, 32_000));

    admit_all(&mut store, &first);

    let lookup = store.lookup(&second);
    assert_eq!(lookup.matched, 3, "the shared system prompt must hit");
    assert_eq!(lookup.hit_tokens(), 48);
    assert_eq!(lookup.missing().len(), 2, "and only the new turn must miss");
}

#[test]
fn shared_prefixes_are_stored_once() {
    let mut store = new_store(512);
    let mut rng = SplitMix64::new(4);

    let system_prompt = rng.tokens(64, 32_000); // 4 blocks
    let conversations = 10;

    for _ in 0..conversations {
        let mut tokens = system_prompt.clone();
        tokens.extend(rng.tokens(32, 32_000)); // 2 private blocks
        admit_all(&mut store, &tokens);
    }

    let naive = conversations * 6;
    assert_eq!(store.resident_blocks(), 4 + conversations * 2);
    assert_eq!(store.resident_blocks(), 24);
    assert!(store.resident_blocks() < naive);

    let stats = store.stats();
    assert_eq!(stats.deduped_blocks, ((conversations - 1) * 4) as u64);
}

#[test]
fn later_turns_hit_on_the_whole_conversation_so_far() {
    let mut store = new_store(4096);
    let config = WorkloadConfig {
        system_prompt_tokens: 128,
        conversations: 2,
        turns_per_conversation: 4,
        user_turn_tokens: 32,
        reply_tokens: 64,
        ..Default::default()
    };

    let mut hit_tokens_by_turn = vec![0usize; config.turns_per_conversation];
    for request in trace::generate(&config) {
        let lookup = store.lookup(&request.tokens);
        if request.conversation == 0 {
            hit_tokens_by_turn[request.turn] = lookup.hit_tokens();
        }
        // The engine hands back the reply's KV too, not just the prompt's.
        admit_all(&mut store, &request.completed);
    }

    // Turn 0 is cold; every later turn must hit more than the one before.
    assert_eq!(hit_tokens_by_turn[0], 0);
    for turn in 1..config.turns_per_conversation {
        assert!(
            hit_tokens_by_turn[turn] > hit_tokens_by_turn[turn - 1],
            "turn {turn} hit {} tokens, previous turn hit {}",
            hit_tokens_by_turn[turn],
            hit_tokens_by_turn[turn - 1]
        );
    }

    // By the last turn only the newest user tokens should be unseen.
    let last = hit_tokens_by_turn[config.turns_per_conversation - 1];
    let expected_prefix = 128 + 3 * (32 + 64);
    assert!(
        last >= expected_prefix - TPB,
        "expected ~{expected_prefix} hit tokens on the final turn, got {last}"
    );
}

#[test]
fn a_full_slab_refuses_rather_than_corrupting() {
    let mut store = new_store(4);
    let mut rng = SplitMix64::new(5);
    let tokens = rng.tokens(16 * 6, 32_000); // 6 blocks into 4 slots

    let block_bytes = store.layout().block_bytes();
    let lookup = store.lookup(&tokens);
    let payloads: Vec<Vec<u8>> = lookup
        .hashes
        .iter()
        .map(|&hash| trace::block_payload(hash, block_bytes))
        .collect();
    let refs: Vec<&[u8]> = payloads.iter().map(|p| p.as_slice()).collect();

    let report = admit_sequence(&mut store, &tokens, &refs);
    assert_eq!(report.inserted, 4);
    assert_eq!(report.dropped, 2);
    assert_eq!(store.resident_blocks(), 4);

    // What we stored is still correct and still usable as a prefix.
    let lookup = store.lookup(&tokens);
    assert_eq!(lookup.matched, 4);
    for &hash in &lookup.hashes[..4] {
        assert!(store.read(hash).is_some());
    }
    for &hash in &lookup.hashes[4..] {
        assert!(
            store.read(hash).is_none(),
            "must not serve a block we dropped"
        );
    }
}

#[test]
fn an_orphan_block_is_never_admitted() {
    let mut store = new_store(64);
    let mut rng = SplitMix64::new(6);
    let tokens = rng.tokens(64, 32_000);
    let block_bytes = store.layout().block_bytes();

    let hashes = store.lookup(&tokens).hashes;
    let payload = trace::block_payload(hashes[2], block_bytes);

    // Block 2 without blocks 0 and 1 is unusable.
    assert_eq!(
        admit_one(&mut store, hashes[2], Some(hashes[1]), 48, &payload),
        Admit::OrphanParent
    );
    assert_eq!(store.resident_blocks(), 0);
}

#[test]
fn different_models_do_not_share_a_cache() {
    let layout = BlockLayout::tiny();
    let mut rng = SplitMix64::new(7);
    let tokens = rng.tokens(64, 32_000);

    let mut llama = KvStore::new("llama-3-8b", layout, 64, Model::default()).unwrap();
    let mut mistral = KvStore::new("mistral-7b", layout, 64, Model::default()).unwrap();

    admit_all(&mut llama, &tokens);
    assert_eq!(mistral.lookup(&tokens).matched, 0);
}

#[test]
fn a_request_is_probed_and_handed_back() {
    let mut store = new_store(64);
    let config = WorkloadConfig {
        system_prompt_tokens: 32,
        conversations: 1,
        turns_per_conversation: 2,
        user_turn_tokens: 16,
        reply_tokens: 16,
        ..Default::default()
    };
    let requests = trace::generate(&config);
    let mut tally = Tally::new(2);

    let first = probe(&mut store, &requests[0], &mut tally);
    assert_eq!((first.matched, first.hashes.len()), (0, 3));
    let payloads = completed_payloads(&mut store, &requests[0]);
    assert_eq!(payloads.len(), 4);
    assert_eq!(payloads[2], trace::block_payload(first.hashes[2], 2048));
    let refs: Vec<&[u8]> = payloads.iter().map(|p| p.as_slice()).collect();
    match admit_completed(&mut store, &requests[0], &refs, ChainRun::new()) {
        ChainStep::Done(report) => assert_eq!(
            (report.inserted, report.deduped, report.dropped),
            (4, 0, 0),
            "the reply is handed back with the prompt"
        ),
        ChainStep::Demote(..) => panic!("there is no disk"),
    }
    let kept = store.lookup(&requests[0].completed);
    assert_eq!((kept.matched, kept.hashes.len()), (4, 4));
    for (hash, payload) in kept.hashes.iter().zip(&payloads) {
        assert_eq!(store.read(*hash), Some(payload.as_slice()));
    }

    let second = probe(&mut store, &requests[1], &mut tally);
    assert_eq!((second.matched, second.hashes.len()), (4, 5));
    assert_eq!(*tally.per_turn(), [(0, 48), (64, 80)]);
    assert_eq!((tally.hit_tokens(), tally.total_tokens()), (64, 128));
}

#[test]
fn memory_for_everything_means_nothing_is_turned_away() {
    let mut store = new_store(8);
    let tokens = SplitMix64::new(8).tokens(128, 32_000);
    let hashes = store.lookup(&tokens).hashes;
    let payloads: Vec<Vec<u8>> = hashes
        .iter()
        .map(|&hash| trace::block_payload(hash, 2048))
        .collect();
    let refs: Vec<&[u8]> = payloads.iter().map(|p| p.as_slice()).collect();
    let report = admit_sequence(&mut store, &tokens, &refs);
    assert_eq!(
        report,
        AdmitReport {
            inserted: 8,
            deduped: 0,
            dropped: 0
        }
    );
    let stats = store.stats();
    assert_eq!((stats.inserted_blocks, stats.bytes_admitted), (8, 8 * 2048));
    assert_eq!((stats.lookups, stats.queried_blocks, stats.hit_blocks), (1, 8, 0));
    assert!(store.lookup(&tokens).is_full_hit());
}

#[test]
fn a_resident_chain_is_not_stored_again() {
    // Memory for exactly one sequence, so there is none to spare.
    let mut store = new_store(4);
    let tokens = SplitMix64::new(31).tokens(64, 32_000);
    admit_all(&mut store, &tokens);
    assert_eq!(store.resident_blocks(), 4);

    // Other bytes under the same names: what is resident stays as it is.
    let other = vec![0xEEu8; store.layout().block_bytes()];
    let blocks: Vec<&[u8]> = vec![other.as_slice(); 4];
    let report = admit_sequence(&mut store, &tokens, &blocks);
    assert_eq!((report.inserted, report.deduped, report.dropped), (0, 4, 0));
    assert_eq!(store.stats().evicted_blocks, 0);

    for hash in store.lookup(&tokens).hashes {
        let expected = trace::block_payload(hash, store.layout().block_bytes());
        assert_eq!(store.read(hash).unwrap(), expected.as_slice());
    }
}

#[test]
fn a_store_is_what_its_memory_makes_of_it() {
    let layout = BlockLayout::tiny();
    let slab = Slab::new(layout.block_bytes(), 3);
    let store = KvStore::from_slab("test-model", layout, slab, Model::default())
        .ok()
        .unwrap();
    assert_eq!((store.model_id(), store.layout()), ("test-model", &layout));
    assert_eq!((store.ram_capacity(), store.resident_blocks()), (3, 0));
    assert_eq!(store.disk_stats().map(|stats| stats.writes), None);

    let refused = std::io::Error::from(std::io::ErrorKind::OutOfMemory);
    let slab = Err(SlabError::MapFailed(refused));
    let error = KvStore::from_slab("test-model", layout, slab, Model::default())
        .err()
        .unwrap();
    let SlabError::MapFailed(error) = error;
    assert_eq!(error.kind(), std::io::ErrorKind::OutOfMemory);

    // Longer than any mapping can be.
    let huge = BlockLayout {
        num_layers: 1 << 52,
        ..layout
    };
    assert!(KvStore::new("test-model", huge, 2, Model::default()).is_err());
}
