//! Block identity: a block is named by its whole token history, so two
//! sequences share a name exactly when their KV bytes are identical.

use vstd::prelude::*;

use crate::bytes::{array_of, push_all, push_be, push_le, read_be};
use crate::text::{is_text, Text};

verus! {

/// A token id as produced by the model's tokenizer.
pub type TokenId = u32;

/// Domain separation: a namespace digest can never be read as a block digest.
pub const TAG_NAMESPACE: u8 = 0x01;
pub const TAG_BLOCK: u8 = 0x02;

/// Most tokens whose preimage is staged in one buffer and hashed in one call.
pub const MAX_STAGED_TOKENS: usize = 128;

/// What BLAKE3 makes of a byte string: its 32-byte digest.
pub uninterp spec fn blake3_digest(input: Seq<u8>) -> Seq<u8>;

/// Calls `blake3::hash`. Claims that the digest is a function of the input
/// bytes alone, named `blake3_digest`.
#[verifier::external_body]
fn blake3_hash(input: &[u8]) -> (digest: [u8; 32])
    ensures
        digest@ == blake3_digest(input@),
{
    *blake3::hash(input).as_bytes()
}

/// Feeds two pieces to a `blake3::Hasher`, one `update` after the other, and
/// finalizes it. Claims that this is the digest of the two pieces joined: the
/// incremental interface agrees with `blake3::hash` on the whole input.
#[verifier::external_body]
fn blake3_stream(head: &[u8], body: &[u8]) -> (digest: [u8; 32])
    ensures
        digest@ == blake3_digest(head@ + body@),
{
    let mut hasher = blake3::Hasher::new();
    hasher.update(head);
    hasher.update(body);
    *hasher.finalize().as_bytes()
}

/// The name of a block: 128 bits of BLAKE3. Held as one integer whose most
/// significant byte is the first byte of the name, so names order as their
/// bytes do.
#[derive(Clone, Copy, Debug, PartialEq, Eq, PartialOrd, Ord, Hash, Structural)]
pub struct BlockHash {
    pub name: u128,
}

impl View for BlockHash {
    type V = u128;

    open spec fn view(&self) -> u128 {
        self.name
    }
}

impl BlockHash {
    /// The sixteen bytes of the name.
    pub fn as_bytes(&self) -> (bytes: [u8; 16])
        ensures
            bytes@ == crate::bytes::be(self@ as nat, 16),
    {
        let mut bytes: Vec<u8> = Vec::new();
        push_be(&mut bytes, self.name, 16);
        proof {
            crate::bytes::lemma_be_len(self@ as nat, 16);
        }
        array_of(bytes.as_slice())
    }

    pub fn from_bytes(bytes: [u8; 16]) -> (hash: Self)
        ensures
            hash@ == crate::bytes::be_value(bytes@),
            crate::bytes::be(hash@ as nat, 16) == bytes@,
    {
        let name: u128 = read_be(&bytes, 0, 16);
        proof {
            assert(bytes@.subrange(0, 16) =~= bytes@);
            crate::bytes::lemma_be_of_value(bytes@);
        }
        BlockHash { name }
    }

    /// A name from a byte string, if it is exactly sixteen bytes long.
    pub fn parse(bytes: &[u8]) -> (hash: Option<Self>)
        ensures
            hash is Some <==> bytes@.len() == 16,
            hash matches Some(hash) ==> crate::bytes::be(hash@ as nat, 16) == bytes@,
    {
        if bytes.len() != 16 {
            return None;
        }
        let name: u128 = read_be(bytes, 0, 16);
        proof {
            assert(bytes@.subrange(0, 16) =~= bytes@);
            crate::bytes::lemma_be_of_value(bytes@);
        }
        Some(BlockHash { name })
    }

    /// A short form for messages: the first six bytes in hexadecimal.
    pub fn label(&self) -> (label: String)
        ensures
            label@ == "blk:"@ + crate::text::hex((self@ / 0x1_0000_0000_0000_0000_0000) as nat, 12),
    {
        let head: u64 = (self.name / 0x1_0000_0000_0000_0000_0000) as u64;
        let text = Text::new().push_text("blk:").push_hex(head, 12).finish();
        assert(text@ =~= "blk:"@ + crate::text::hex(head as nat, 12));
        text
    }

    /// The first eight bytes of the name, least significant first.
    pub fn bucket_key(&self) -> (key: u64)
        ensures
            key == crate::bytes::le_value(crate::bytes::be(self@ as nat, 16).subrange(0, 8)),
    {
        let bytes = self.as_bytes();
        let mut key: u64 = 0;
        let mut i: usize = 8;
        proof {
            assert(bytes@.subrange(8, 8) =~= Seq::<u8>::empty());
            crate::bytes::lemma_spans();
        }
        while i > 0
            invariant
                i <= 8,
                bytes@.len() == 16,
                key == crate::bytes::le_value(bytes@.subrange(i as int, 8)),
                key < crate::bytes::span((8 - i) as nat),
            decreases i,
        {
            i = i - 1;
            proof {
                let part = bytes@.subrange(i as int, 8);
                assert(part.subrange(1, part.len() as int) =~= bytes@.subrange(i + 1, 8));
                crate::bytes::lemma_span_grows((8 - i) as nat, 8);
                crate::bytes::lemma_spans();
            }
            key = bytes[i] as u64 + 256 * key;
        }
        key
    }
}

/// Element type of the KV tensors; only the byte width matters to us.
#[derive(Clone, Copy, Debug, PartialEq, Eq, Structural)]
pub enum DType {
    F32,
    F16,
    BF16,
    F8,
}

/// Bytes in one element.
pub open spec fn dtype_size(dtype: DType) -> nat {
    match dtype {
        DType::F32 => 4,
        DType::F16 => 2,
        DType::BF16 => 2,
        DType::F8 => 1,
    }
}

/// The short name of an element type.
pub open spec fn dtype_name(dtype: DType) -> Seq<char> {
    match dtype {
        DType::F32 => seq!['f', '3', '2'],
        DType::F16 => seq!['f', '1', '6'],
        DType::BF16 => seq!['b', 'f', '1', '6'],
        DType::F8 => seq!['f', '8'],
    }
}

/// The element type that a text names, if it names one.
pub open spec fn dtype_of_name(name: Seq<char>) -> Option<DType> {
    if name == "f32"@ || name == "float32"@ {
        Some(DType::F32)
    } else if name == "f16"@ || name == "float16"@ || name == "half"@ {
        Some(DType::F16)
    } else if name == "bf16"@ || name == "bfloat16"@ {
        Some(DType::BF16)
    } else if name == "f8"@ || name == "float8"@ {
        Some(DType::F8)
    } else {
        None
    }
}

impl DType {
    pub fn size(self) -> (size: usize)
        ensures
            size == dtype_size(self),
    {
        match self {
            DType::F32 => 4,
            DType::F16 => 2,
            DType::BF16 => 2,
            DType::F8 => 1,
        }
    }

    pub fn name(self) -> (name: &'static str)
        ensures
            name@ == dtype_name(self),
    {
        proof {
            reveal_strlit("f32");
            reveal_strlit("f16");
            reveal_strlit("bf16");
            reveal_strlit("f8");
        }
        let name: &'static str = match self {
            DType::F32 => "f32",
            DType::F16 => "f16",
            DType::BF16 => "bf16",
            DType::F8 => "f8",
        };
        assert(name@ =~= dtype_name(self));
        name
    }

    /// The element type that a configuration names, in any of the spellings
    /// that engines use.
    pub fn parse(name: &str) -> (dtype: Option<Self>)
        ensures
            dtype == dtype_of_name(name@),
    {
        if is_text(name, "f32") || is_text(name, "float32") {
            Some(DType::F32)
        } else if is_text(name, "f16") || is_text(name, "float16") || is_text(name, "half") {
            Some(DType::F16)
        } else if is_text(name, "bf16") || is_text(name, "bfloat16") {
            Some(DType::BF16)
        } else if is_text(name, "f8") || is_text(name, "float8") {
            Some(DType::F8)
        } else {
            None
        }
    }
}

/// How a block's bytes are ordered inside its flat chunk.
///
/// The dimensions alone do not pin this down: two connectors can agree on
/// every field of `BlockLayout` and still write the same bytes in a different
/// order. So the order feeds the namespace digest, and a connector that
/// serializes differently misses rather than returning another order's bytes.
#[derive(Clone, Copy, Debug, PartialEq, Eq, Structural)]
pub enum BlockOrder {
    /// vLLM's NHD paged layout with K and V packed into the content dim:
    /// layer -> token -> head -> K then V -> head_dim. One contiguous range
    /// per (layer, block), which is why it is the cheapest order to move.
    VllmNhd,
}

/// The text that stands for an order in the namespace digest.
pub open spec fn order_tag(order: BlockOrder) -> Seq<char> {
    "vllm-nhd-kvpacked-layer-major-v1"@
}

impl BlockOrder {
    pub fn tag(self) -> (tag: &'static str)
        ensures
            tag@ == order_tag(self),
    {
        match self {
            BlockOrder::VllmNhd => "vllm-nhd-kvpacked-layer-major-v1",
        }
    }
}

impl Default for BlockOrder {
    fn default() -> (order: Self)
        ensures
            order == BlockOrder::VllmNhd,
    {
        BlockOrder::VllmNhd
    }
}

/// Which tensor-parallel shard a block holds, under per-rank sharding.
///
/// Ranks share one server but hold different heads, so the rank belongs in
/// the namespace rather than in the layout: same server, disjoint names.
#[derive(Clone, Copy, Debug, PartialEq, Eq, Structural)]
pub struct Shard {
    pub rank: u32,
    pub count: u32,
}

impl Default for Shard {
    fn default() -> (shard: Self)
        ensures
            shard == (Shard { rank: 0, count: 1 }),
    {
        Shard { rank: 0, count: 1 }
    }
}

/// The physical shape of one block. Every field changes the byte layout, so
/// every field feeds into the namespace digest.
#[derive(Clone, Copy, Debug, PartialEq, Eq, Structural)]
pub struct BlockLayout {
    /// Tokens covered by one block. vLLM's PagedAttention default is 16.
    pub tokens_per_block: usize,
    pub num_layers: usize,
    /// KV heads, not attention heads: under GQA these differ by a large factor.
    pub num_kv_heads: usize,
    pub head_dim: usize,
    pub dtype: DType,
}

impl BlockLayout {
    /// Bytes in one block: K and V of every layer, token, head and dimension.
    pub open spec fn size(self) -> int {
        2 * self.num_layers * self.tokens_per_block * self.num_kv_heads * self.head_dim
            * dtype_size(self.dtype)
    }

    /// The size can be worked out, factor by factor, without overflow.
    pub open spec fn sized(self) -> bool {
        &&& 2 * self.num_layers <= usize::MAX
        &&& 2 * self.num_layers * self.tokens_per_block <= usize::MAX
        &&& 2 * self.num_layers * self.tokens_per_block * self.num_kv_heads <= usize::MAX
        &&& 2 * self.num_layers * self.tokens_per_block * self.num_kv_heads * self.head_dim
            <= usize::MAX
        &&& self.size() <= usize::MAX
    }

    /// Bytes in one block. The leading 2 is K and V.
    pub fn block_bytes(&self) -> (bytes: usize)
        requires
            self.sized(),
        ensures
            bytes == self.size(),
    {
        2 * self.num_layers * self.tokens_per_block * self.num_kv_heads * self.head_dim
            * self.dtype.size()
    }

    /// Bytes in one block of a layout that a peer described, or `None` where
    /// the shape is too large to work out.
    pub fn checked_block_bytes(&self) -> (bytes: Option<usize>)
        ensures
            bytes is Some <==> self.sized(),
            bytes matches Some(bytes) ==> bytes == self.size(),
    {
        let pair = self.num_layers.checked_mul(2)?;
        let per_layer = pair.checked_mul(self.tokens_per_block)?;
        let per_head = per_layer.checked_mul(self.num_kv_heads)?;
        let elements = per_head.checked_mul(self.head_dim)?;
        elements.checked_mul(self.dtype.size())
    }

    /// Bytes of KV per single token, across all layers.
    pub fn token_bytes(&self) -> (bytes: usize)
        requires
            self.sized(),
            self.tokens_per_block > 0,
        ensures
            bytes == self.size() / self.tokens_per_block as int,
    {
        self.block_bytes() / self.tokens_per_block
    }

    /// Llama-3-8B fp16: 128 KiB of KV per token, so a 32k context is 4 GiB.
    pub fn llama3_8b() -> (layout: Self)
        ensures
            layout == (BlockLayout {
                tokens_per_block: 16,
                num_layers: 32,
                num_kv_heads: 8,
                head_dim: 128,
                dtype: DType::F16,
            }),
            layout.sized(),
            layout.size() == 2 * 1024 * 1024,
    {
        assert(2 * 32 * 16 * 8 * 128 * 2 == 2 * 1024 * 1024) by (nonlinear_arith);
        BlockLayout {
            tokens_per_block: 16,
            num_layers: 32,
            num_kv_heads: 8,
            head_dim: 128,
            dtype: DType::F16,
        }
    }

    /// A deliberately tiny layout for tests: 2 KiB blocks.
    pub fn tiny() -> (layout: Self)
        ensures
            layout == (BlockLayout {
                tokens_per_block: 16,
                num_layers: 2,
                num_kv_heads: 2,
                head_dim: 8,
                dtype: DType::F16,
            }),
            layout.sized(),
            layout.size() == 2048,
    {
        assert(2 * 2 * 16 * 2 * 8 * 2 == 2048) by (nonlinear_arith);
        BlockLayout {
            tokens_per_block: 16,
            num_layers: 2,
            num_kv_heads: 2,
            head_dim: 8,
            dtype: DType::F16,
        }
    }

    /// The layout that a configuration names.
    pub fn named(name: &str) -> (layout: Option<Self>)
        ensures
            layout is Some <==> name@ == "tiny"@ || name@ == "llama3-8b"@,
            layout matches Some(layout) ==> {
                &&& layout.sized()
                &&& name@ == "tiny"@ ==> layout == (BlockLayout {
                    tokens_per_block: 16,
                    num_layers: 2,
                    num_kv_heads: 2,
                    head_dim: 8,
                    dtype: DType::F16,
                })
                &&& name@ == "llama3-8b"@ ==> layout == (BlockLayout {
                    tokens_per_block: 16,
                    num_layers: 32,
                    num_kv_heads: 8,
                    head_dim: 128,
                    dtype: DType::F16,
                })
            },
    {
        proof {
            reveal_strlit("tiny");
            reveal_strlit("llama3-8b");
            assert("tiny"@.len() != "llama3-8b"@.len());
        }
        if is_text(name, "tiny") {
            Some(Self::tiny())
        } else if is_text(name, "llama3-8b") {
            Some(Self::llama3_8b())
        } else {
            None
        }
    }
}

/// What is hashed to name a namespace.
pub open spec fn namespace_preimage(
    model: Seq<u8>,
    layout: BlockLayout,
    order: BlockOrder,
    shard: Shard,
) -> Seq<u8> {
    seq![TAG_NAMESPACE] + crate::bytes::le(model.len(), 8) + model + crate::bytes::le(layout.tokens_per_block as nat, 8) + crate::bytes::le(
        layout.num_layers as nat,
        8,
    ) + crate::bytes::le(layout.num_kv_heads as nat, 8) + crate::bytes::le(layout.head_dim as nat, 8) + vstd::utf8::encode_utf8(
        dtype_name(layout.dtype),
    ) + crate::bytes::le(vstd::utf8::encode_utf8(order_tag(order)).len(), 8) + vstd::utf8::encode_utf8(order_tag(order)) + crate::bytes::le(
        shard.rank as nat,
        4,
    ) + crate::bytes::le(shard.count as nat, 4)
}

/// Token ids as they are hashed, four bytes each.
pub open spec fn token_bytes_of(tokens: Seq<TokenId>) -> Seq<u8>
    decreases tokens.len(),
{
    if tokens.len() == 0 {
        Seq::empty()
    } else {
        token_bytes_of(tokens.drop_last()) + crate::bytes::le(tokens.last() as nat, 4)
    }
}

/// What is hashed before the tokens of a block: tag, parent, token count.
pub open spec fn block_header(parent: u128, count: nat) -> Seq<u8> {
    seq![TAG_BLOCK] + crate::bytes::be(parent as nat, 16) + crate::bytes::le(count, 8)
}

/// What is hashed to name a block.
pub open spec fn block_preimage(parent: u128, tokens: Seq<TokenId>) -> Seq<u8> {
    block_header(parent, tokens.len()) + token_bytes_of(tokens)
}

/// The name that a preimage gets: the first sixteen bytes of its digest.
pub open spec fn name_of(preimage: Seq<u8>) -> u128 {
    crate::bytes::be_value(blake3_digest(preimage).subrange(0, 16)) as u128
}

/// One link of the chain.
pub open spec fn child_name(parent: u128, tokens: Seq<TokenId>) -> u128 {
    name_of(block_preimage(parent, tokens))
}

/// The tokens of the `i`-th block of a sequence.
pub open spec fn block_tokens(tokens: Seq<TokenId>, width: nat, i: nat) -> Seq<TokenId> {
    tokens.subrange((i * width) as int, ((i + 1) * width) as int)
}

/// The name of what the `i`-th block of a sequence attaches to.
pub open spec fn chain_parent(root: u128, width: nat, tokens: Seq<TokenId>, i: nat) -> u128
    decreases i,
{
    if i == 0 {
        root
    } else {
        child_name(
            chain_parent(root, width, tokens, (i - 1) as nat),
            block_tokens(tokens, width, (i - 1) as nat),
        )
    }
}

/// The name of the `i`-th block of a sequence.
pub open spec fn chain_name(root: u128, width: nat, tokens: Seq<TokenId>, i: nat) -> u128 {
    chain_parent(root, width, tokens, i + 1)
}

/// The preimage of the `i`-th block of a sequence.
pub open spec fn chain_preimage(root: u128, width: nat, tokens: Seq<TokenId>, i: nat) -> Seq<u8> {
    block_preimage(chain_parent(root, width, tokens, i), block_tokens(tokens, width, i))
}

fn truncate(digest: [u8; 32]) -> (hash: BlockHash)
    ensures
        hash@ == crate::bytes::be_value(digest@.subrange(0, 16)),
        crate::bytes::be(hash@ as nat, 16) == digest@.subrange(0, 16),
{
    let name: u128 = read_be(&digest, 0, 16);
    proof {
        crate::bytes::lemma_be_of_value(digest@.subrange(0, 16));
    }
    BlockHash { name }
}

/// Computes prefix-chained block names:
///
/// ```text
/// h_0 = H(namespace, tokens[0..16])
/// h_i = H(h_{i-1}, tokens[16i..16i+16])
/// ```
///
/// Shared prefixes therefore share names, and diverge permanently at the
/// first differing token.
pub struct PrefixHasher {
    namespace: BlockHash,
    tokens_per_block: usize,
}

impl PrefixHasher {
    /// The name that every first block attaches to.
    pub closed spec fn root(&self) -> u128 {
        self.namespace@
    }

    /// Tokens in one block.
    pub closed spec fn width(&self) -> nat {
        self.tokens_per_block as nat
    }

    pub fn new(model_id: &str, layout: &BlockLayout) -> (hasher: Self)
        ensures
            hasher.root() == name_of(
                namespace_preimage(
                    vstd::utf8::encode_utf8(model_id@),
                    *layout,
                    BlockOrder::VllmNhd,
                    Shard { rank: 0, count: 1 },
                ),
            ),
            hasher.width() == layout.tokens_per_block,
            crate::bytes::be(hasher.root() as nat, 16) == blake3_digest(
                namespace_preimage(
                    vstd::utf8::encode_utf8(model_id@),
                    *layout,
                    BlockOrder::VllmNhd,
                    Shard { rank: 0, count: 1 },
                ),
            ).subrange(0, 16),
    {
        Self::sharded(model_id, layout, BlockOrder::default(), Shard::default())
    }

    pub fn sharded(
        model_id: &str,
        layout: &BlockLayout,
        order: BlockOrder,
        shard: Shard,
    ) -> (hasher: Self)
        ensures
            hasher.root() == name_of(
                namespace_preimage(vstd::utf8::encode_utf8(model_id@), *layout, order, shard),
            ),
            hasher.width() == layout.tokens_per_block,
            crate::bytes::be(hasher.root() as nat, 16) == blake3_digest(
                namespace_preimage(vstd::utf8::encode_utf8(model_id@), *layout, order, shard),
            ).subrange(0, 16),
    {
        let model = model_id.as_bytes();
        let mut head: Vec<u8> = Vec::new();
        head.push(TAG_NAMESPACE);
        // Length-prefixed so ("ab","c") and ("a","bc") hash differently.
        push_le(&mut head, model.len() as u128, 8);
        push_all(&mut head, model);

        let tag = order.tag().as_bytes();
        let mut body: Vec<u8> = Vec::new();
        push_le(&mut body, layout.tokens_per_block as u128, 8);
        push_le(&mut body, layout.num_layers as u128, 8);
        push_le(&mut body, layout.num_kv_heads as u128, 8);
        push_le(&mut body, layout.head_dim as u128, 8);
        push_all(&mut body, layout.dtype.name().as_bytes());
        push_le(&mut body, tag.len() as u128, 8);
        push_all(&mut body, tag);
        push_le(&mut body, shard.rank as u128, 4);
        push_le(&mut body, shard.count as u128, 4);
        assert(head@ + body@ =~= namespace_preimage(
            vstd::utf8::encode_utf8(model_id@),
            *layout,
            order,
            shard,
        ));
        PrefixHasher {
            namespace: truncate(blake3_stream(&head, &body)),
            tokens_per_block: layout.tokens_per_block,
        }
    }

    /// Synthetic root: parent of every first block, never stored.
    pub fn namespace(&self) -> (hash: BlockHash)
        ensures
            hash@ == self.root(),
    {
        self.namespace
    }

    pub fn tokens_per_block(&self) -> (tokens: usize)
        ensures
            tokens == self.width(),
    {
        self.tokens_per_block
    }

    /// One link of the chain, staged in one buffer and hashed in a single call.
    pub fn child(&self, parent: BlockHash, tokens: &[TokenId]) -> (hash: BlockHash)
        ensures
            hash@ == child_name(parent@, tokens@),
            crate::bytes::be(hash@ as nat, 16) == blake3_digest(
                block_preimage(parent@, tokens@),
            ).subrange(0, 16),
    {
        if tokens.len() > MAX_STAGED_TOKENS {
            return self.child_streaming(parent, tokens);
        }
        let mut buffer: Vec<u8> = Self::header(parent, tokens.len());
        Self::push_tokens(&mut buffer, tokens);
        truncate(blake3_hash(&buffer))
    }

    /// Same byte stream, for larger blocks: the header and the tokens are fed
    /// to the hash one after the other, each from a buffer of its own. BLAKE3
    /// is a streaming hash, so this produces identical digests.
    pub fn child_streaming(&self, parent: BlockHash, tokens: &[TokenId]) -> (hash: BlockHash)
        ensures
            hash@ == child_name(parent@, tokens@),
            crate::bytes::be(hash@ as nat, 16) == blake3_digest(
                block_preimage(parent@, tokens@),
            ).subrange(0, 16),
    {
        let head: Vec<u8> = Self::header(parent, tokens.len());
        let mut body: Vec<u8> = Vec::new();
        Self::push_tokens(&mut body, tokens);
        assert(body@ =~= token_bytes_of(tokens@));
        truncate(blake3_stream(&head, &body))
    }

    fn header(parent: BlockHash, count: usize) -> (head: Vec<u8>)
        ensures
            head@ == block_header(parent@, count as nat),
    {
        let mut head: Vec<u8> = Vec::new();
        head.push(TAG_BLOCK);
        push_be(&mut head, parent.name, 16);
        push_le(&mut head, count as u128, 8);
        assert(head@ =~= block_header(parent@, count as nat));
        head
    }

    fn push_tokens(out: &mut Vec<u8>, tokens: &[TokenId])
        ensures
            final(out)@ == old(out)@ + token_bytes_of(tokens@),
    {
        let mut i: usize = 0;
        assert(out@ =~= old(out)@ + token_bytes_of(tokens@.subrange(0, 0)));
        while i < tokens.len()
            invariant
                i <= tokens@.len(),
                out@ == old(out)@ + token_bytes_of(tokens@.subrange(0, i as int)),
            decreases tokens.len() - i,
        {
            push_le(out, tokens[i] as u128, 4);
            i = i + 1;
            proof {
                let part = tokens@.subrange(0, i as int);
                assert(part.drop_last() =~= tokens@.subrange(0, i - 1));
                assert(out@ =~= old(out)@ + token_bytes_of(part));
            }
        }
        assert(tokens@.subrange(0, i as int) =~= tokens@);
    }

    /// Names for every *full* block, in order. The trailing partial block is
    /// left out: it will grow, so its name would not stay valid.
    pub fn chain(&self, tokens: &[TokenId]) -> (names: Vec<BlockHash>)
        requires
            self.width() > 0,
        ensures
            names@.len() == tokens@.len() / self.width(),
            forall|i: int|
                0 <= i < names@.len() ==> (#[trigger] names@[i])@ == chain_name(
                    self.root(),
                    self.width(),
                    tokens@,
                    i as nat,
                ),
            forall|i: int|
                0 <= i < names@.len() ==> crate::bytes::be((#[trigger] names@[i])@ as nat, 16)
                    == blake3_digest(
                    block_preimage(
                        if i == 0 {
                            self.root()
                        } else {
                            names@[i - 1]@
                        },
                        tokens@.subrange(i * self.width(), (i + 1) * self.width()),
                    ),
                ).subrange(0, 16),
    {
        let width: usize = self.tokens_per_block;
        let count: usize = tokens.len() / width;
        let mut names: Vec<BlockHash> = Vec::with_capacity(count);
        let mut parent = self.namespace;
        let mut i: usize = 0;
        let mut start: usize = 0;
        while i < count
            invariant
                width == self.width(),
                width > 0,
                count == tokens.len() / width,
                i <= count,
                start == i * width,
                names@.len() == i,
                parent@ == chain_parent(self.root(), width as nat, tokens@, i as nat),
                parent@ == (if i == 0 {
                    self.root()
                } else {
                    names@[i - 1]@
                }),
                forall|k: int|
                    0 <= k < i ==> crate::bytes::be((#[trigger] names@[k])@ as nat, 16)
                        == blake3_digest(
                        block_preimage(
                            if k == 0 {
                                self.root()
                            } else {
                                names@[k - 1]@
                            },
                            tokens@.subrange(k * width, (k + 1) * width),
                        ),
                    ).subrange(0, 16),
                forall|k: int|
                    0 <= k < i ==> (#[trigger] names@[k])@ == chain_name(
                        self.root(),
                        width as nat,
                        tokens@,
                        k as nat,
                    ),
            decreases count - i,
        {
            proof {
                assert((i + 1) * width <= count * width) by (nonlinear_arith)
                    requires
                        i + 1 <= count,
                        width > 0,
                ;
                assert(count * width <= tokens.len()) by (nonlinear_arith)
                    requires
                        count == tokens.len() / width,
                        width > 0,
                ;
                assert((i + 1) * width == start + width) by (nonlinear_arith)
                    requires
                        start == i * width,
                ;
            }
            let block = vstd::slice::slice_subrange(tokens, start, start + width);
            let hash = self.child(parent, block);
            assert(block@ == block_tokens(tokens@, width as nat, i as nat));
            names.push(hash);
            parent = hash;
            i = i + 1;
            start = start + width;
        }
        names
    }
}

/// The size of a block: keys and values of every layer, token, head and
/// dimension, at four, two, two or one byte each; a token's share is that
/// divided by the tokens of a block. A shape whose size cannot be worked out
/// gets none.
pub proof fn lemma_sizes_are_products(
    layout: &BlockLayout,
    bytes: usize,
    checked: Option<usize>,
    per_token: usize,
)
    requires
        layout.sized(),
        layout.tokens_per_block > 0,
        call_ensures(BlockLayout::block_bytes, (layout,), bytes),
        call_ensures(BlockLayout::checked_block_bytes, (layout,), checked),
        call_ensures(BlockLayout::token_bytes, (layout,), per_token),
    ensures
        ({
            let each: int = match layout.dtype {
                DType::F32 => 4,
                DType::F16 => 2,
                DType::BF16 => 2,
                DType::F8 => 1,
            };
            &&& bytes == 2 * layout.num_layers * layout.tokens_per_block * layout.num_kv_heads
                * layout.head_dim * each
            &&& checked == Some(bytes)
            &&& per_token * layout.tokens_per_block == bytes
            &&& per_token == 2 * layout.num_layers * layout.num_kv_heads * layout.head_dim * each
        }),
{
    let each: int = match layout.dtype {
        DType::F32 => 4,
        DType::F16 => 2,
        DType::BF16 => 2,
        DType::F8 => 1,
    };
    let (l, t, h, d) = (
        layout.num_layers as int,
        layout.tokens_per_block as int,
        layout.num_kv_heads as int,
        layout.head_dim as int,
    );
    let share = 2 * l * h * d * each;
    assert(2 * l * t * h * d * each == share * t) by (nonlinear_arith)
        requires
            share == 2 * l * h * d * each,
    ;
    vstd::arithmetic::div_mod::lemma_div_multiples_vanish(share, t);
    assert(t * share == share * t) by (nonlinear_arith);
}

/// Every element type has a name of its own, which is also how it is spelled in
/// a configuration; the longer spellings mean the same types.
pub proof fn lemma_element_types_are_spelled(dtype: DType, name: &'static str, again: Option<DType>)
    requires
        call_ensures(DType::name, (dtype,), name),
        call_ensures(DType::parse, (name,), again),
    ensures
        name@ == (match dtype {
            DType::F32 => "f32"@,
            DType::F16 => "f16"@,
            DType::BF16 => "bf16"@,
            DType::F8 => "f8"@,
        }),
        again == Some(dtype),
{
    reveal_strlit("f32");
    reveal_strlit("f16");
    reveal_strlit("bf16");
    reveal_strlit("f8");
    reveal_strlit("float32");
    reveal_strlit("float16");
    reveal_strlit("half");
    reveal_strlit("bfloat16");
    reveal_strlit("float8");
    match dtype {
        DType::F32 => {
            assert(name@ =~= "f32"@);
        },
        DType::F16 => {
            assert(name@ =~= "f16"@);
            assert(name@[1] != "f32"@[1]);
            assert(name@.len() != "float32"@.len());
        },
        DType::BF16 => {
            assert(name@ =~= "bf16"@);
            assert(name@.len() != "f32"@.len());
            assert(name@.len() != "f16"@.len());
            assert(name@.len() != "float32"@.len());
            assert(name@.len() != "float16"@.len());
            assert(name@[0] != "half"@[0]);
        },
        DType::F8 => {
            assert(name@ =~= "f8"@);
            assert(name@.len() != "f32"@.len());
            assert(name@.len() != "f16"@.len());
            assert(name@.len() != "bf16"@.len());
            assert(name@.len() != "half"@.len());
            assert(name@.len() != "float32"@.len());
            assert(name@.len() != "float16"@.len());
            assert(name@.len() != "bfloat16"@.len());
        },
    }
}

/// A text that configures an element type is one of these and nothing else.
pub proof fn lemma_element_types_are_read(name: &str, dtype: Option<DType>)
    requires
        call_ensures(DType::parse, (name,), dtype),
    ensures
        dtype == Some(DType::F32) ==> name@ == "f32"@ || name@ == "float32"@,
        dtype == Some(DType::F16) ==> name@ == "f16"@ || name@ == "float16"@ || name@ == "half"@,
        dtype == Some(DType::BF16) ==> name@ == "bf16"@ || name@ == "bfloat16"@,
        dtype == Some(DType::F8) ==> name@ == "f8"@ || name@ == "float8"@,
        dtype is None ==> name@ != "f32"@ && name@ != "float32"@ && name@ != "f16"@ && name@
            != "float16"@ && name@ != "half"@ && name@ != "bf16"@ && name@ != "bfloat16"@ && name@
            != "f8"@ && name@ != "float8"@,
{
}

/// A name is its sixteen bytes, most significant first, and can be had back from
/// them; its bucket key is the first eight of them, least significant first.
pub proof fn lemma_names_are_their_bytes(
    hash: BlockHash,
    bytes: [u8; 16],
    again: BlockHash,
    key: u64,
)
    requires
        call_ensures(BlockHash::as_bytes, (&hash,), bytes),
        call_ensures(BlockHash::from_bytes, (bytes,), again),
        call_ensures(BlockHash::bucket_key, (&hash,), key),
    ensures
        again == hash,
        bytes@ == crate::bytes::be(hash@ as nat, 16),
        crate::bytes::le(key as nat, 8) == bytes@.subrange(0, 8),
{
    crate::bytes::lemma_spans();
    crate::bytes::lemma_be_round_trip(hash@ as nat, 16);
    crate::bytes::lemma_le_of_value(bytes@.subrange(0, 8));
}

} // verus!
