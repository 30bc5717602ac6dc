//! Block identity: names, layouts, and what tells them apart.

use kvtier::block::{
    BlockHash, BlockLayout, BlockOrder, DType, PrefixHasher, Shard, TokenId,
};

fn seq(n: usize) -> Vec<TokenId> {
    (0..n as TokenId).collect()
}

#[test]
fn layout_sizes_match_reality() {
    let layout = BlockLayout::llama3_8b();
    assert_eq!(layout.token_bytes(), 128 * 1024);
    assert_eq!(layout.block_bytes(), 2 * 1024 * 1024);
}

#[test]
fn hashing_is_deterministic() {
    let layout = BlockLayout::tiny();
    let a = PrefixHasher::new("llama-3-8b", &layout);
    let b = PrefixHasher::new("llama-3-8b", &layout);
    assert_eq!(a.chain(&seq(64)), b.chain(&seq(64)));
}

#[test]
fn shared_prefix_yields_shared_names() {
    let layout = BlockLayout::tiny();
    let hasher = PrefixHasher::new("m", &layout);

    // Two sequences agreeing for 48 tokens (3 blocks) then diverging.
    let mut left = seq(48);
    let mut right = seq(48);
    left.extend([900, 901, 902, 903].repeat(4)); // 16 more
    right.extend([500, 501, 502, 503].repeat(4));

    let lh = hasher.chain(&left);
    let rh = hasher.chain(&right);
    assert_eq!(lh.len(), 4);
    assert_eq!(lh[..3], rh[..3], "shared prefix must share names");
    assert_ne!(lh[3], rh[3], "divergence must break the chain");
}

#[test]
fn position_matters() {
    // The same tokens at a different offset must get a different name.
    let layout = BlockLayout::tiny();
    let hasher = PrefixHasher::new("m", &layout);
    let block: Vec<TokenId> = (0..16).collect();

    let first = hasher.chain(&block);
    let mut shifted = vec![777; 16];
    shifted.extend(&block);
    let second = hasher.chain(&shifted);

    assert_ne!(first[0], second[1]);
}

#[test]
fn one_shot_and_streaming_agree() {
    // The fallback path must be byte-identical to the fast path, or a
    // large block size would silently create a second namespace.
    let layout = BlockLayout::tiny();
    let hasher = PrefixHasher::new("m", &layout);
    let root = hasher.namespace();
    for count in [1usize, 16, 128] {
        let tokens: Vec<TokenId> = (0..count as TokenId).collect();
        assert_eq!(
            hasher.child(root, &tokens),
            hasher.child_streaming(root, &tokens),
            "mismatch at {count} tokens"
        );
    }
}

#[test]
fn different_models_never_collide() {
    let layout = BlockLayout::tiny();
    let a = PrefixHasher::new("llama-3-8b", &layout);
    let b = PrefixHasher::new("mistral-7b", &layout);
    assert_ne!(a.chain(&seq(32)), b.chain(&seq(32)));
}

#[test]
fn different_layouts_never_collide() {
    let a = PrefixHasher::new("m", &BlockLayout::tiny());
    let mut other = BlockLayout::tiny();
    other.dtype = DType::F8;
    let b = PrefixHasher::new("m", &other);
    assert_ne!(a.chain(&seq(32)), b.chain(&seq(32)));
}

#[test]
fn partial_trailing_block_is_not_named() {
    let layout = BlockLayout::tiny();
    let hasher = PrefixHasher::new("m", &layout);
    // 40 tokens = 2 full blocks + 8 leftover.
    assert_eq!(hasher.chain(&seq(40)).len(), 2);
    // Names stay stable as the tail grows.
    assert_eq!(hasher.chain(&seq(40)), hasher.chain(&seq(47))[..2]);
}

#[test]
fn tp_ranks_never_collide() {
    // Per-rank shards: same tokens, same layout, different heads. Sharing
    // a name here would hand a rank another rank's heads.
    let layout = BlockLayout::tiny();
    let order = BlockOrder::default();
    let zero = PrefixHasher::sharded("m", &layout, order, Shard { rank: 0, count: 2 });
    let one = PrefixHasher::sharded("m", &layout, order, Shard { rank: 1, count: 2 });
    assert_ne!(zero.chain(&seq(32)), one.chain(&seq(32)));
}

#[test]
fn tp_degree_is_part_of_the_namespace() {
    // Rank 0 of 2 holds different heads than rank 0 of 4.
    let layout = BlockLayout::tiny();
    let order = BlockOrder::default();
    let two = PrefixHasher::sharded("m", &layout, order, Shard { rank: 0, count: 2 });
    let four = PrefixHasher::sharded("m", &layout, order, Shard { rank: 0, count: 4 });
    assert_ne!(two.chain(&seq(32)), four.chain(&seq(32)));
}

#[test]
fn the_default_hasher_is_the_unsharded_one() {
    let layout = BlockLayout::tiny();
    assert_eq!(
        PrefixHasher::new("m", &layout).chain(&seq(32)),
        PrefixHasher::sharded("m", &layout, BlockOrder::default(), Shard::default())
            .chain(&seq(32)),
    );
}

/// The first sixteen bytes of what BLAKE3 makes of `input`.
fn digest(input: &[u8]) -> BlockHash {
    BlockHash::parse(&blake3::hash(input).as_bytes()[..16]).unwrap()
}

#[test]
fn a_name_is_the_digest_of_tag_parent_count_and_tokens() {
    let hasher = PrefixHasher::new("m", &BlockLayout::tiny());
    let parent = hasher.namespace();

    let mut input = vec![0x02];
    input.extend_from_slice(&parent.as_bytes());
    input.extend_from_slice(&3u64.to_le_bytes());
    for token in [7u32, 70_000, u32::MAX] {
        input.extend_from_slice(&token.to_le_bytes());
    }
    assert_eq!(hasher.child(parent, &[7, 70_000, u32::MAX]), digest(&input));
    assert_eq!(
        hasher.child_streaming(parent, &[7, 70_000, u32::MAX]),
        digest(&input)
    );
}

#[test]
fn a_namespace_is_the_digest_of_everything_that_shapes_bytes() {
    let layout = BlockLayout {
        tokens_per_block: 16,
        num_layers: 28,
        num_kv_heads: 4,
        head_dim: 128,
        dtype: DType::BF16,
    };
    let mut input = vec![0x01];
    input.extend_from_slice(&4u64.to_le_bytes());
    input.extend_from_slice(b"qwen");
    for dimension in [16u64, 28, 4, 128] {
        input.extend_from_slice(&dimension.to_le_bytes());
    }
    input.extend_from_slice(b"bf16");
    input.extend_from_slice(&32u64.to_le_bytes());
    input.extend_from_slice(b"vllm-nhd-kvpacked-layer-major-v1");
    input.extend_from_slice(&1u32.to_le_bytes());
    input.extend_from_slice(&2u32.to_le_bytes());

    let hasher =
        PrefixHasher::sharded("qwen", &layout, BlockOrder::VllmNhd, Shard { rank: 1, count: 2 });
    assert_eq!(hasher.namespace(), digest(&input));
    assert_eq!(hasher.tokens_per_block(), 16);
}

#[test]
fn block_sizes_past_the_staging_buffer_hash_the_same_stream() {
    let hasher = PrefixHasher::new("m", &BlockLayout::tiny());
    let root = hasher.namespace();
    let tokens = seq(129);

    let mut input = vec![0x02];
    input.extend_from_slice(&root.as_bytes());
    input.extend_from_slice(&129u64.to_le_bytes());
    for token in &tokens {
        input.extend_from_slice(&token.to_le_bytes());
    }
    assert_eq!(hasher.child(root, &tokens), digest(&input));
}

#[test]
fn names_round_trip_through_their_bytes() {
    let bytes: [u8; 16] = [
        0x00, 0x11, 0x22, 0x33, 0x44, 0x55, 0x66, 0x77, 0x88, 0x99, 0xAA, 0xBB, 0xCC, 0xDD, 0xEE,
        0xFF,
    ];
    let hash = BlockHash::from_bytes(bytes);
    assert_eq!(hash.as_bytes(), bytes);
    assert_eq!(hash.bucket_key(), 0x7766_5544_3322_1100);
    assert_eq!(hash.label(), "blk:001122334455");
}

#[test]
fn a_name_is_exactly_sixteen_bytes() {
    assert_eq!(
        BlockHash::parse(&[9; 16]),
        Some(BlockHash::from_bytes([9; 16]))
    );
    assert_eq!(BlockHash::parse(&[9; 15]), None);
    assert_eq!(BlockHash::parse(&[9; 17]), None);
}

#[test]
fn names_order_as_their_bytes_do() {
    let mut low = [0u8; 16];
    low[15] = 0xFF;
    let mut high = [0u8; 16];
    high[0] = 1;
    assert!(BlockHash::from_bytes(low) < BlockHash::from_bytes(high));
}

#[test]
fn element_types_are_known_by_their_spellings() {
    for (name, dtype) in [
        ("f32", DType::F32),
        ("float32", DType::F32),
        ("f16", DType::F16),
        ("float16", DType::F16),
        ("half", DType::F16),
        ("bf16", DType::BF16),
        ("bfloat16", DType::BF16),
        ("f8", DType::F8),
        ("float8", DType::F8),
    ] {
        assert_eq!(DType::parse(name), Some(dtype), "{name}");
    }
    assert_eq!(DType::parse("int8"), None);
    assert_eq!(DType::parse(""), None);
    assert_eq!(DType::BF16.name(), "bf16");
    assert_eq!(
        [DType::F32, DType::F16, DType::BF16, DType::F8].map(|dtype| dtype.size()),
        [4, 2, 2, 1]
    );
}

#[test]
fn layouts_are_known_by_name() {
    assert_eq!(BlockLayout::named("tiny"), Some(BlockLayout::tiny()));
    assert_eq!(
        BlockLayout::named("llama3-8b"),
        Some(BlockLayout::llama3_8b())
    );
    assert_eq!(BlockLayout::named("custom"), None);
    assert_eq!(BlockLayout::tiny().block_bytes(), 2048);
}

#[test]
fn a_layout_too_large_to_size_is_noticed() {
    let mut layout = BlockLayout::tiny();
    assert_eq!(layout.checked_block_bytes(), Some(2048));
    layout.num_layers = usize::MAX;
    assert_eq!(layout.checked_block_bytes(), None);
    layout.num_layers = usize::MAX / 2;
    assert_eq!(layout.checked_block_bytes(), None);
}
