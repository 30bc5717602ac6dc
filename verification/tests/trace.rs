//! Synthetic workloads.

use kvtier::block::BlockHash;
use kvtier::demo::{squeezed, Tally};
use kvtier::trace::{
    block_payload, fill_block, generate, made_up_chain, SplitMix64, WorkloadConfig,
};

#[test]
fn draws_are_those_of_splitmix64() {
    let mut rng = SplitMix64::new(0);
    assert_eq!(rng.next_u64(), 0xE220_A839_7B1D_CDAF);
    assert_eq!(rng.next_u64(), 0x6E78_9E6A_A1B9_65F4);
    assert_eq!(rng.next_u64(), 0x06C4_5D18_8009_454F);
}

#[test]
fn tokens_stay_within_the_vocabulary() {
    let mut rng = SplitMix64::new(9);
    let tokens = rng.tokens(100, 7);
    assert_eq!(tokens.len(), 100);
    assert!(tokens.iter().all(|&token| token < 7));

    let mut again = SplitMix64::new(9);
    let one_by_one: Vec<u32> = (0..100).map(|_| again.token(7)).collect();
    assert_eq!(tokens, one_by_one);
}

#[test]
fn turns_come_round_robin_and_grow() {
    let config = WorkloadConfig {
        system_prompt_tokens: 8,
        conversations: 3,
        turns_per_conversation: 2,
        user_turn_tokens: 4,
        reply_tokens: 5,
        vocab: 1000,
        seed: 1,
    };
    let requests = generate(&config);
    let order: Vec<(usize, usize)> = requests
        .iter()
        .map(|request| (request.turn, request.conversation))
        .collect();
    assert_eq!(order, [(0, 0), (0, 1), (0, 2), (1, 0), (1, 1), (1, 2)]);

    for request in &requests {
        assert_eq!(request.tokens[..8], requests[0].tokens[..8]);
        assert_eq!(
            request.completed[..request.tokens.len()],
            request.tokens[..]
        );
        assert_eq!(request.completed.len(), request.tokens.len() + 5);
    }
    for conversation in 0..3 {
        let first = &requests[conversation];
        let second = &requests[3 + conversation];
        assert_eq!(second.tokens[..first.completed.len()], first.completed[..]);
        assert_eq!(second.tokens.len(), first.completed.len() + 4);
    }
}

#[test]
fn the_default_workload_shares_a_long_prompt() {
    let config = WorkloadConfig::default();
    assert_eq!(
        (config.system_prompt_tokens, config.conversations),
        (512, 8)
    );
    assert_eq!(
        (config.turns_per_conversation, config.user_turn_tokens),
        (4, 64)
    );
    assert_eq!((config.reply_tokens, config.vocab), (128, 32_000));
    assert_eq!(config.seed, 0xC0FFEE);
    let requests = generate(&config);
    assert_eq!(requests.len(), 32);
    assert_eq!(requests[31].completed.len(), 512 + 4 * (64 + 128));
}

#[test]
fn a_payload_follows_from_the_name() {
    let mut bytes = [0u8; 16];
    bytes[8] = 1;
    let hash = BlockHash::from_bytes(bytes);
    // The first eight bytes are zero, so the draws are those of seed zero.
    let payload = block_payload(hash, 20);
    let mut expected = Vec::new();
    expected.extend_from_slice(&0xE220_A839_7B1D_CDAFu64.to_le_bytes());
    expected.extend_from_slice(&0x6E78_9E6A_A1B9_65F4u64.to_le_bytes());
    expected.extend_from_slice(&0x06C4_5D18_8009_454Fu64.to_le_bytes()[..4]);
    assert_eq!(payload, expected);

    let mut buffer = [0xFFu8; 3];
    fill_block(&mut buffer, hash);
    assert_eq!(buffer[..], expected[..3]);
}

#[test]
fn made_up_names_are_two_draws() {
    let name = SplitMix64::new(0).block_hash();
    let mut expected = [0u8; 16];
    expected[..8].copy_from_slice(&0xE220_A839_7B1D_CDAFu64.to_le_bytes());
    expected[8..].copy_from_slice(&0x6E78_9E6A_A1B9_65F4u64.to_le_bytes());
    assert_eq!(name.as_bytes(), expected);
}

#[test]
fn a_made_up_chain_deepens_block_by_block() {
    let mut rng = SplitMix64::new(7);
    let chain = made_up_chain(&mut rng, 3, 16);
    let mut again = SplitMix64::new(7);
    for (i, (hash, depth)) in chain.into_iter().enumerate() {
        assert_eq!(hash, again.block_hash());
        assert_eq!(depth, 16 * (i as u32 + 1));
    }
    assert_eq!(rng.next_u64(), again.next_u64());
}

#[test]
fn a_tally_adds_up_by_turn() {
    let mut tally = Tally::new(3);
    tally.note(0, 0, 100);
    tally.note(2, 40, 50);
    tally.note(2, 10, 60);
    assert_eq!((tally.hit_tokens(), tally.total_tokens()), (50, 210));
    assert_eq!(*tally.per_turn(), [(0, 100), (0, 0), (50, 110)]);
}

#[test]
fn a_squeezed_run_keeps_a_few_blocks() {
    assert_eq!(squeezed(400, 75), 300);
    assert_eq!(squeezed(100, 10), 10);
    assert_eq!(squeezed(100, 5), 8);
}
