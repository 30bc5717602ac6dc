//! What a name says: blocks with the same history share a name, and a shared
//! name means the same history unless BLAKE3 itself collides.

use vstd::prelude::*;

use crate::block::{
    BlockHash, BlockLayout, BlockOrder, DType, PrefixHasher, Shard, TokenId,
};

verus! {

/// Two preimages that are told apart and get the same name all the same: the
/// digests of both, whole, start with the same sixteen bytes.
pub open spec fn collide(a: Seq<u8>, b: Seq<u8>) -> bool {
    let a_digest = crate::block::blake3_digest(a);
    let b_digest = crate::block::blake3_digest(b);
    a != b && crate::bytes::be_value(a_digest.subrange(0, 16)) as u128 == crate::bytes::be_value(
        b_digest.subrange(0, 16),
    ) as u128
}

/// Everything that a namespace covers.
pub struct Namespace {
    pub model: Seq<u8>,
    pub layout: BlockLayout,
    pub order: BlockOrder,
    pub shard: Shard,
}

impl Namespace {
    pub open spec fn preimage(self) -> Seq<u8> {
        crate::block::namespace_preimage(self.model, self.layout, self.order, self.shard)
    }

    pub open spec fn root(self) -> u128 {
        crate::block::name_of(self.preimage())
    }

    pub open spec fn width(self) -> nat {
        self.layout.tokens_per_block as nat
    }
}

/// What is hashed for the link that `count` blocks of a sequence lead to: the
/// namespace itself before the first block.
pub open spec fn link_preimage(space: Namespace, tokens: Seq<TokenId>, count: nat) -> Seq<u8> {
    if count == 0 {
        space.preimage()
    } else {
        crate::block::chain_preimage(space.root(), space.width(), tokens, (count - 1) as nat)
    }
}

/// The link that `count` blocks of a sequence lead to.
pub open spec fn link_name(space: Namespace, tokens: Seq<TokenId>, count: nat) -> u128 {
    crate::block::chain_parent(space.root(), space.width(), tokens, count)
}

/// Somewhere along the two chains, two different preimages share a name.
pub open spec fn chains_collide(
    a_space: Namespace,
    a: Seq<TokenId>,
    i: nat,
    b_space: Namespace,
    b: Seq<TokenId>,
    j: nat,
) -> bool {
    exists|k: nat, l: nat|
        k <= i && l <= j && #[trigger] collide(
            link_preimage(a_space, a, k),
            link_preimage(b_space, b, l),
        )
}

/// Sequences that agree on their first `count` blocks share the names of
/// those blocks, whatever follows. In particular a name stays as it is when
/// the sequence grows.
pub proof fn lemma_shared_prefix_shares_names(
    root: u128,
    width: nat,
    a: Seq<TokenId>,
    b: Seq<TokenId>,
    count: nat,
)
    requires
        count * width <= a.len(),
        count * width <= b.len(),
        a.take((count * width) as int) == b.take((count * width) as int),
    ensures
        forall|i: nat|
            i < count ==> #[trigger] crate::block::chain_name(root, width, a, i)
                == crate::block::chain_name(root, width, b, i),
{
    assert forall|i: nat| i < count implies #[trigger] crate::block::chain_name(root, width, a, i)
        == crate::block::chain_name(root, width, b, i) by {
        lemma_shared_links(root, width, a, b, count, i + 1);
    }
}

proof fn lemma_shared_links(
    root: u128,
    width: nat,
    a: Seq<TokenId>,
    b: Seq<TokenId>,
    count: nat,
    links: nat,
)
    requires
        links <= count,
        count * width <= a.len(),
        count * width <= b.len(),
        a.take((count * width) as int) == b.take((count * width) as int),
    ensures
        crate::block::chain_parent(root, width, a, links) == crate::block::chain_parent(
            root,
            width,
            b,
            links,
        ),
    decreases links,
{
    if links > 0 {
        let i = (links - 1) as nat;
        lemma_shared_links(root, width, a, b, count, i);
        assert(i * width <= (i + 1) * width <= count * width) by (nonlinear_arith)
            requires
                i + 1 <= count,
        ;
        let all = (count * width) as int;
        assert(crate::block::block_tokens(a, width, i) =~= crate::block::block_tokens(
            a.take(all),
            width,
            i,
        ));
        assert(crate::block::block_tokens(b, width, i) =~= crate::block::block_tokens(
            b.take(all),
            width,
            i,
        ));
    }
}

/// Two namespaces have the same preimage only if they agree on the model, on
/// every dimension, on the byte order and on the shard.
pub proof fn lemma_namespaces_are_told_apart(a: Namespace, b: Namespace)
    requires
        a.model.len() < crate::bytes::span(8),
        b.model.len() < crate::bytes::span(8),
        a.preimage() == b.preimage(),
    ensures
        a == b,
{
    lemma_namespace_fields(a);
    lemma_namespace_fields(b);
    crate::bytes::lemma_spans();
    let p = a.preimage();
    crate::bytes::lemma_le_injective(a.model.len(), b.model.len(), 8);
    let n = a.model.len() as int;
    assert(a.model =~= p.subrange(9, 9 + n));
    assert(b.model =~= p.subrange(9, 9 + n));
    crate::bytes::lemma_le_injective(
        a.layout.tokens_per_block as nat,
        b.layout.tokens_per_block as nat,
        8,
    );
    crate::bytes::lemma_le_injective(a.layout.num_layers as nat, b.layout.num_layers as nat, 8);
    crate::bytes::lemma_le_injective(a.layout.num_kv_heads as nat, b.layout.num_kv_heads as nat, 8);
    crate::bytes::lemma_le_injective(a.layout.head_dim as nat, b.layout.head_dim as nat, 8);
    assert(a.layout.dtype == b.layout.dtype);
    crate::bytes::lemma_le_injective(a.shard.rank as nat, b.shard.rank as nat, 4);
    crate::bytes::lemma_le_injective(a.shard.count as nat, b.shard.count as nat, 4);
}

/// The two bytes that an element type's name starts with.
spec fn dtype_mark(dtype: DType) -> (u8, u8) {
    match dtype {
        DType::F32 => (102, 51),
        DType::F16 => (102, 49),
        DType::BF16 => (98, 102),
        DType::F8 => (102, 56),
    }
}

/// Where the fields of a namespace stand in its preimage.
proof fn lemma_namespace_fields(space: Namespace)
    ensures
        ({
            let p = space.preimage();
            let n = space.model.len() as int;
            let order = vstd::utf8::encode_utf8(crate::block::order_tag(space.order)).len() as int;
            let t = 41 + n + crate::block::dtype_name(space.layout.dtype).len();
            let s = t + 8 + order;
            &&& p.len() == s + 8
            &&& p[0] == crate::block::TAG_NAMESPACE
            &&& p.subrange(1, 9) == crate::bytes::le(space.model.len(), 8)
            &&& p.subrange(9, 9 + n) == space.model
            &&& p.subrange(9 + n, 17 + n) == crate::bytes::le(
                space.layout.tokens_per_block as nat,
                8,
            )
            &&& p.subrange(17 + n, 25 + n) == crate::bytes::le(space.layout.num_layers as nat, 8)
            &&& p.subrange(25 + n, 33 + n) == crate::bytes::le(space.layout.num_kv_heads as nat, 8)
            &&& p.subrange(33 + n, 41 + n) == crate::bytes::le(space.layout.head_dim as nat, 8)
            &&& (p[41 + n], p[42 + n]) == dtype_mark(space.layout.dtype)
            &&& p.subrange(s, s + 4) == crate::bytes::le(space.shard.rank as nat, 4)
            &&& p.subrange(s + 4, s + 8) == crate::bytes::le(space.shard.count as nat, 4)
        }),
{
    let p = space.preimage();
    let n = space.model.len() as int;
    let dtype = crate::block::dtype_name(space.layout.dtype);
    let order = vstd::utf8::encode_utf8(crate::block::order_tag(space.order));
    let t = 41 + n + dtype.len();
    let s = t + 8 + order.len();
    crate::bytes::lemma_le_len(space.model.len(), 8);
    crate::bytes::lemma_le_len(space.layout.tokens_per_block as nat, 8);
    crate::bytes::lemma_le_len(space.layout.num_layers as nat, 8);
    crate::bytes::lemma_le_len(space.layout.num_kv_heads as nat, 8);
    crate::bytes::lemma_le_len(space.layout.head_dim as nat, 8);
    crate::bytes::lemma_le_len(order.len(), 8);
    crate::bytes::lemma_le_len(space.shard.rank as nat, 4);
    crate::bytes::lemma_le_len(space.shard.count as nat, 4);
    assert(vstd::utf8::is_ascii_chars(dtype));
    vstd::utf8::is_ascii_chars_encode_utf8(dtype);
    let mark = vstd::utf8::encode_utf8(dtype);
    assert(dtype[0] as u8 == mark[0] && dtype[1] as u8 == mark[1]);
    assert(p.subrange(1, 9) =~= crate::bytes::le(space.model.len(), 8));
    assert(p.subrange(9, 9 + n) =~= space.model);
    assert(p.subrange(9 + n, 17 + n) =~= crate::bytes::le(
        space.layout.tokens_per_block as nat,
        8,
    ));
    assert(p.subrange(17 + n, 25 + n) =~= crate::bytes::le(space.layout.num_layers as nat, 8));
    assert(p.subrange(25 + n, 33 + n) =~= crate::bytes::le(space.layout.num_kv_heads as nat, 8));
    assert(p.subrange(33 + n, 41 + n) =~= crate::bytes::le(space.layout.head_dim as nat, 8));
    assert(p[41 + n] == mark[0] && p[42 + n] == mark[1]);
    assert(p.subrange(s, s + 4) =~= crate::bytes::le(space.shard.rank as nat, 4));
    assert(p.subrange(s + 4, s + 8) =~= crate::bytes::le(space.shard.count as nat, 4));
}

proof fn lemma_token_bytes_len(tokens: Seq<TokenId>)
    ensures
        crate::block::token_bytes_of(tokens).len() == 4 * tokens.len(),
    decreases tokens.len(),
{
    if tokens.len() > 0 {
        lemma_token_bytes_len(tokens.drop_last());
        crate::bytes::lemma_le_len(tokens.last() as nat, 4);
    }
}

proof fn lemma_token_bytes_injective(a: Seq<TokenId>, b: Seq<TokenId>)
    requires
        a.len() == b.len(),
        crate::block::token_bytes_of(a) == crate::block::token_bytes_of(b),
    ensures
        a == b,
    decreases a.len(),
{
    if a.len() > 0 {
        let p = crate::block::token_bytes_of(a);
        let cut = p.len() - 4;
        lemma_token_bytes_len(a);
        lemma_token_bytes_len(a.drop_last());
        lemma_token_bytes_len(b.drop_last());
        crate::bytes::lemma_le_len(a.last() as nat, 4);
        crate::bytes::lemma_le_len(b.last() as nat, 4);
        assert(p.subrange(0, cut) =~= crate::block::token_bytes_of(a.drop_last()));
        assert(p.subrange(0, cut) =~= crate::block::token_bytes_of(b.drop_last()));
        assert(p.subrange(cut, p.len() as int) =~= crate::bytes::le(a.last() as nat, 4));
        assert(p.subrange(cut, p.len() as int) =~= crate::bytes::le(b.last() as nat, 4));
        crate::bytes::lemma_spans();
        crate::bytes::lemma_le_injective(a.last() as nat, b.last() as nat, 4);
        lemma_token_bytes_injective(a.drop_last(), b.drop_last());
        assert(a =~= a.drop_last().push(a.last()));
        assert(b =~= b.drop_last().push(b.last()));
    }
    assert(a =~= b);
}

/// Two blocks have the same preimage only if they have the same parent and
/// the same tokens.
pub proof fn lemma_blocks_are_told_apart(
    a_parent: u128,
    a: Seq<TokenId>,
    b_parent: u128,
    b: Seq<TokenId>,
)
    requires
        a.len() < crate::bytes::span(8),
        b.len() < crate::bytes::span(8),
        crate::block::block_preimage(a_parent, a) == crate::block::block_preimage(b_parent, b),
    ensures
        a_parent == b_parent,
        a == b,
{
    let p = crate::block::block_preimage(a_parent, a);
    crate::bytes::lemma_spans();
    crate::bytes::lemma_be_len(a_parent as nat, 16);
    crate::bytes::lemma_be_len(b_parent as nat, 16);
    crate::bytes::lemma_le_len(a.len(), 8);
    crate::bytes::lemma_le_len(b.len(), 8);
    assert(p.subrange(1, 17) =~= crate::bytes::be(a_parent as nat, 16));
    assert(p.subrange(1, 17) =~= crate::bytes::be(b_parent as nat, 16));
    crate::bytes::lemma_be_injective(a_parent as nat, b_parent as nat, 16);
    assert(p.subrange(17, 25) =~= crate::bytes::le(a.len(), 8));
    assert(p.subrange(17, 25) =~= crate::bytes::le(b.len(), 8));
    crate::bytes::lemma_le_injective(a.len(), b.len(), 8);
    assert(p.subrange(25, p.len() as int) =~= crate::block::token_bytes_of(a));
    assert(p.subrange(25, p.len() as int) =~= crate::block::token_bytes_of(b));
    lemma_token_bytes_injective(a, b);
}

/// A namespace is never hashed from the bytes of a block: the two start with
/// different tags.
pub proof fn lemma_namespaces_are_no_blocks(space: Namespace, parent: u128, tokens: Seq<TokenId>)
    ensures
        space.preimage() != crate::block::block_preimage(parent, tokens),
{
    lemma_namespace_fields(space);
    assert(crate::block::block_preimage(parent, tokens)[0] == crate::block::TAG_BLOCK);
}

/// A name stands for one history. If `i` blocks of one sequence and `j` blocks
/// of another lead to the same name, then the two were named for the same
/// model, layout, byte order and shard, `i` is `j`, and the tokens so far are
/// the same -- or BLAKE3 has given one name to two different preimages, both
/// of which stand along these two chains.
pub proof fn lemma_names_tell_histories_apart(
    a_space: Namespace,
    a: Seq<TokenId>,
    i: nat,
    b_space: Namespace,
    b: Seq<TokenId>,
    j: nat,
)
    requires
        a_space.model.len() < crate::bytes::span(8),
        b_space.model.len() < crate::bytes::span(8),
        i * a_space.width() <= a.len(),
        j * b_space.width() <= b.len(),
        link_name(a_space, a, i) == link_name(b_space, b, j),
    ensures
        ({
            ||| chains_collide(a_space, a, i, b_space, b, j)
            ||| {
                &&& a_space == b_space
                &&& i == j
                &&& a.take((i * a_space.width()) as int) == b.take((j * b_space.width()) as int)
            }
        }),
    decreases i,
{
    let p = link_preimage(a_space, a, i);
    let q = link_preimage(b_space, b, j);
    assert(link_name(a_space, a, i) == crate::block::name_of(p));
    assert(link_name(b_space, b, j) == crate::block::name_of(q));
    if p != q {
        assert(collide(p, q));
    } else if i == 0 && j == 0 {
        lemma_namespaces_are_told_apart(a_space, b_space);
        assert(0 * a_space.width() == 0);
        assert(a.take(0) =~= b.take(0));
    } else if i == 0 {
        let parent = link_name(b_space, b, (j - 1) as nat);
        let tokens = crate::block::block_tokens(b, b_space.width(), (j - 1) as nat);
        lemma_namespaces_are_no_blocks(a_space, parent, tokens);
    } else if j == 0 {
        let parent = link_name(a_space, a, (i - 1) as nat);
        let tokens = crate::block::block_tokens(a, a_space.width(), (i - 1) as nat);
        lemma_namespaces_are_no_blocks(b_space, parent, tokens);
    } else {
        let x = a_space.width();
        let y = b_space.width();
        let a_block = crate::block::block_tokens(a, x, (i - 1) as nat);
        let b_block = crate::block::block_tokens(b, y, (j - 1) as nat);
        assert(0 <= (i - 1) * x && i * x == (i - 1) * x + x) by (nonlinear_arith)
            requires
                i >= 1,
                x >= 0,
        ;
        assert(0 <= (j - 1) * y && j * y == (j - 1) * y + y) by (nonlinear_arith)
            requires
                j >= 1,
                y >= 0,
        ;
        crate::bytes::lemma_spans();
        assert(a_block.len() == x && b_block.len() == y);
        lemma_blocks_are_told_apart(
            link_name(a_space, a, (i - 1) as nat),
            a_block,
            link_name(b_space, b, (j - 1) as nat),
            b_block,
        );
        lemma_names_tell_histories_apart(
            a_space,
            a,
            (i - 1) as nat,
            b_space,
            b,
            (j - 1) as nat,
        );
        if chains_collide(a_space, a, (i - 1) as nat, b_space, b, (j - 1) as nat) {
            let (k, l) = choose|k: nat, l: nat|
                k <= i - 1 && l <= j - 1 && #[trigger] collide(
                    link_preimage(a_space, a, k),
                    link_preimage(b_space, b, l),
                );
            assert(collide(link_preimage(a_space, a, k), link_preimage(b_space, b, l)));
        } else {
            let cut = ((i - 1) * x) as int;
            assert(a.take((i * x) as int) =~= a.take(cut) + a_block);
            assert(b.take((j * y) as int) =~= b.take(cut) + b_block);
        }
    }
}

/// What is hashed to name a block: a tag, the sixteen bytes of the parent's
/// name, the number of tokens in eight bytes, and then every token in four
/// bytes, least significant byte first.
pub proof fn lemma_block_is_hashed_whole(parent: u128, tokens: Seq<TokenId>)
    ensures
        ({
            let p = crate::block::block_preimage(parent, tokens);
            &&& p.len() == 25 + 4 * tokens.len()
            &&& p[0] == 2
            &&& p.subrange(1, 17) == crate::bytes::be(parent as nat, 16)
            &&& p.subrange(17, 25) == crate::bytes::le(tokens.len(), 8)
            &&& forall|i: int|
                0 <= i < tokens.len() ==> p.subrange(25 + 4 * i, 29 + 4 * i) == crate::bytes::le(
                    #[trigger] tokens[i] as nat,
                    4,
                )
        }),
{
    let p = crate::block::block_preimage(parent, tokens);
    let body = crate::block::token_bytes_of(tokens);
    crate::bytes::lemma_be_len(parent as nat, 16);
    crate::bytes::lemma_le_len(tokens.len(), 8);
    lemma_token_bytes_len(tokens);
    assert(p.subrange(1, 17) =~= crate::bytes::be(parent as nat, 16));
    assert(p.subrange(17, 25) =~= crate::bytes::le(tokens.len(), 8));
    assert forall|i: int| 0 <= i < tokens.len() implies p.subrange(25 + 4 * i, 29 + 4 * i)
        == crate::bytes::le(#[trigger] tokens[i] as nat, 4) by {
        lemma_token_at(tokens, i);
        assert(p.subrange(25 + 4 * i, 29 + 4 * i) =~= body.subrange(4 * i, 4 * i + 4));
    }
}

proof fn lemma_token_at(tokens: Seq<TokenId>, i: int)
    requires
        0 <= i < tokens.len(),
    ensures
        crate::block::token_bytes_of(tokens).subrange(4 * i, 4 * i + 4) == crate::bytes::le(
            tokens[i] as nat,
            4,
        ),
    decreases tokens.len(),
{
    let before = tokens.drop_last();
    let all = crate::block::token_bytes_of(tokens);
    lemma_token_bytes_len(tokens);
    lemma_token_bytes_len(before);
    if i < before.len() {
        lemma_token_at(before, i);
        assert(all.subrange(4 * i, 4 * i + 4) =~= crate::block::token_bytes_of(before).subrange(
            4 * i,
            4 * i + 4,
        ));
    } else {
        assert(all.subrange(4 * i, 4 * i + 4) =~= crate::bytes::le(tokens.last() as nat, 4));
    }
}

/// What is hashed to name a namespace: a tag, the length of the model's name
/// and the name, the dimensions of a block in eight bytes each, the name of the
/// element type, the length of the order's tag and the tag, and the shard.
pub proof fn lemma_namespace_is_hashed_whole(space: Namespace)
    ensures
        ({
            let p = space.preimage();
            let n = space.model.len() as int;
            let dtype = vstd::utf8::encode_utf8(
                match space.layout.dtype {
                    DType::F32 => seq!['f', '3', '2'],
                    DType::F16 => seq!['f', '1', '6'],
                    DType::BF16 => seq!['b', 'f', '1', '6'],
                    DType::F8 => seq!['f', '8'],
                },
            );
            let order = vstd::utf8::encode_utf8("vllm-nhd-kvpacked-layer-major-v1"@);
            let t = 41 + n + dtype.len();
            let s = t + 8 + order.len();
            &&& p.len() == s + 8
            &&& p[0] == 1
            &&& p.subrange(1, 9) == crate::bytes::le(space.model.len(), 8)
            &&& p.subrange(9, 9 + n) == space.model
            &&& p.subrange(9 + n, 17 + n) == crate::bytes::le(
                space.layout.tokens_per_block as nat,
                8,
            )
            &&& p.subrange(17 + n, 25 + n) == crate::bytes::le(space.layout.num_layers as nat, 8)
            &&& p.subrange(25 + n, 33 + n) == crate::bytes::le(space.layout.num_kv_heads as nat, 8)
            &&& p.subrange(33 + n, 41 + n) == crate::bytes::le(space.layout.head_dim as nat, 8)
            &&& p.subrange(41 + n, t) == dtype
            &&& p.subrange(t, t + 8) == crate::bytes::le(order.len(), 8)
            &&& p.subrange(t + 8, s) == order
            &&& p.subrange(s, s + 4) == crate::bytes::le(space.shard.rank as nat, 4)
            &&& p.subrange(s + 4, s + 8) == crate::bytes::le(space.shard.count as nat, 4)
        }),
{
    let p = space.preimage();
    let n = space.model.len() as int;
    let name = crate::block::dtype_name(space.layout.dtype);
    let dtype = vstd::utf8::encode_utf8(name);
    let order = vstd::utf8::encode_utf8(crate::block::order_tag(space.order));
    assert(vstd::utf8::is_ascii_chars(name));
    vstd::utf8::is_ascii_chars_encode_utf8(name);
    lemma_namespace_fields(space);
    let t = 41 + n + dtype.len();
    let s = t + 8 + order.len();
    crate::bytes::lemma_le_len(space.model.len(), 8);
    crate::bytes::lemma_le_len(space.layout.tokens_per_block as nat, 8);
    crate::bytes::lemma_le_len(space.layout.num_layers as nat, 8);
    crate::bytes::lemma_le_len(space.layout.num_kv_heads as nat, 8);
    crate::bytes::lemma_le_len(space.layout.head_dim as nat, 8);
    crate::bytes::lemma_le_len(order.len(), 8);
    crate::bytes::lemma_le_len(space.shard.rank as nat, 4);
    crate::bytes::lemma_le_len(space.shard.count as nat, 4);
    assert(p.subrange(41 + n, t) =~= dtype);
    assert(p.subrange(t, t + 8) =~= crate::bytes::le(order.len(), 8));
    assert(p.subrange(t + 8, s) =~= order);
}

/// What a hasher was made for and what it named.
pub struct Naming {
    pub space: Namespace,
    pub tokens: Seq<TokenId>,
    pub names: Seq<BlockHash>,
}

/// The names that a hasher gives to a sequence, made for a model, a layout, an
/// order and a shard.
pub open spec fn is_named(
    model: &str,
    layout: &BlockLayout,
    order: BlockOrder,
    shard: Shard,
    hasher: PrefixHasher,
    tokens: &[TokenId],
    names: Vec<BlockHash>,
    naming: Naming,
) -> bool {
    &&& call_ensures(PrefixHasher::sharded, (model, layout, order, shard), hasher)
    &&& call_ensures(PrefixHasher::chain, (&hasher, tokens), names)
    &&& layout.tokens_per_block > 0
    &&& naming.space == (Namespace {
        model: vstd::utf8::encode_utf8(model@),
        layout: *layout,
        order,
        shard,
    })
    &&& naming.tokens == tokens@
    &&& naming.names == names@
}

/// Every full block gets a name and the rest gets none. Each name is the first
/// sixteen bytes of the digest of everything: the name before it, or the
/// namespace, and all tokens of its own block.
pub proof fn lemma_names_cover_the_sequence(
    model: &str,
    layout: &BlockLayout,
    order: BlockOrder,
    shard: Shard,
    hasher: PrefixHasher,
    tokens: &[TokenId],
    names: Vec<BlockHash>,
    naming: Naming,
    i: int,
)
    requires
        is_named(model, layout, order, shard, hasher, tokens, names, naming),
        0 <= i < names@.len(),
    ensures
        names@.len() * layout.tokens_per_block <= tokens@.len(),
        tokens@.len() < (names@.len() + 1) * layout.tokens_per_block,
        crate::bytes::be(hasher.root() as nat, 16) == crate::block::blake3_digest(
            naming.space.preimage(),
        ).subrange(0, 16),
        ({
            let width = layout.tokens_per_block as int;
            let above = if i == 0 {
                hasher.root()
            } else {
                names@[i - 1]@
            };
            crate::bytes::be(names@[i]@ as nat, 16) == crate::block::blake3_digest(
                crate::block::block_preimage(above, tokens@.subrange(i * width, (i + 1) * width)),
            ).subrange(0, 16)
        }),
{
    let width = layout.tokens_per_block as int;
    let count = names@.len() as int;
    assert(count * width <= tokens@.len() && tokens@.len() < (count + 1) * width)
        by (nonlinear_arith)
        requires
            count == tokens@.len() as int / width,
            width > 0,
    ;
}

/// What a hasher gave its `count`-th link is spelled by the digest of what was
/// hashed for it.
proof fn lemma_link_is_digested(
    model: &str,
    layout: &BlockLayout,
    order: BlockOrder,
    shard: Shard,
    hasher: PrefixHasher,
    tokens: &[TokenId],
    names: Vec<BlockHash>,
    naming: Naming,
    count: nat,
)
    requires
        is_named(model, layout, order, shard, hasher, tokens, names, naming),
        count <= names@.len(),
    ensures
        crate::block::blake3_digest(link_preimage(naming.space, naming.tokens, count)).subrange(
            0,
            16,
        ) == crate::bytes::be(
            crate::bytes::be_value(
                crate::block::blake3_digest(
                    link_preimage(naming.space, naming.tokens, count),
                ).subrange(0, 16),
            ) as u128 as nat,
            16,
        ),
        hasher.root() == naming.space.root(),
        count > 0 ==> names@[count - 1]@ == link_name(naming.space, naming.tokens, count),
{
    let p = link_preimage(naming.space, naming.tokens, count);
    let name = if count == 0 {
        hasher.root()
    } else {
        names@[count - 1]@
    };
    if count > 0 {
        let i = count - 1;
        let width = layout.tokens_per_block as nat;
        assert(names@[i]@ == crate::block::chain_name(hasher.root(), width, tokens@, i as nat));
        if i > 0 {
            assert(names@[i - 1]@ == crate::block::chain_name(
                hasher.root(),
                width,
                tokens@,
                (i - 1) as nat,
            ));
        }
        assert(crate::block::block_tokens(tokens@, width, i as nat) == tokens@.subrange(
            i * width,
            (i + 1) * width,
        ));
    }
    assert(crate::bytes::be(name as nat, 16) == crate::block::blake3_digest(p).subrange(0, 16));
    crate::bytes::lemma_spans();
    crate::bytes::lemma_be_round_trip(name as nat, 16);
}

/// A name stands for one history. If two hashers give the same name, to the
/// `i`-th block of one sequence and the `j`-th of another, then both were made
/// for the same model, layout, order and shard, `i` is `j`, and the tokens up
/// to the end of that block are the same -- or else, somewhere along the two
/// chains, two different byte strings that were hashed whole have digests with
/// the same first sixteen bytes.
pub proof fn lemma_shared_name_is_shared_history(
    a_model: &str,
    a_layout: &BlockLayout,
    a_order: BlockOrder,
    a_shard: Shard,
    a_hasher: PrefixHasher,
    a_tokens: &[TokenId],
    a_names: Vec<BlockHash>,
    a: Naming,
    i: nat,
    b_model: &str,
    b_layout: &BlockLayout,
    b_order: BlockOrder,
    b_shard: Shard,
    b_hasher: PrefixHasher,
    b_tokens: &[TokenId],
    b_names: Vec<BlockHash>,
    b: Naming,
    j: nat,
)
    requires
        is_named(a_model, a_layout, a_order, a_shard, a_hasher, a_tokens, a_names, a),
        is_named(b_model, b_layout, b_order, b_shard, b_hasher, b_tokens, b_names, b),
        a.space.model.len() <= u64::MAX,
        b.space.model.len() <= u64::MAX,
        i < a_names@.len(),
        j < b_names@.len(),
        a_names@[i as int] == b_names@[j as int],
    ensures
        ({
            ||| exists|k: nat, l: nat|
                {
                    let p = #[trigger] link_preimage(a.space, a.tokens, k);
                    let q = #[trigger] link_preimage(b.space, b.tokens, l);
                    &&& k <= i + 1
                    &&& l <= j + 1
                    &&& p != q
                    &&& crate::block::blake3_digest(p).subrange(0, 16)
                        == crate::block::blake3_digest(q).subrange(0, 16)
                }
            ||| {
                &&& a.space == b.space
                &&& i == j
                &&& a_tokens@.take((i + 1) * a_layout.tokens_per_block) == b_tokens@.take(
                    (j + 1) * b_layout.tokens_per_block,
                )
            }
        }),
{
    crate::bytes::lemma_spans();
    lemma_link_is_digested(
        a_model,
        a_layout,
        a_order,
        a_shard,
        a_hasher,
        a_tokens,
        a_names,
        a,
        i + 1,
    );
    lemma_link_is_digested(
        b_model,
        b_layout,
        b_order,
        b_shard,
        b_hasher,
        b_tokens,
        b_names,
        b,
        j + 1,
    );
    let x = a_layout.tokens_per_block as int;
    let y = b_layout.tokens_per_block as int;
    assert((i + 1) * x <= a_tokens@.len()) by (nonlinear_arith)
        requires
            i + 1 <= a_tokens@.len() as int / x,
            x > 0,
    ;
    assert((j + 1) * y <= b_tokens@.len()) by (nonlinear_arith)
        requires
            j + 1 <= b_tokens@.len() as int / y,
            y > 0,
    ;
    lemma_names_tell_histories_apart(a.space, a.tokens, i + 1, b.space, b.tokens, j + 1);
    if chains_collide(a.space, a.tokens, i + 1, b.space, b.tokens, j + 1) {
        let (k, l) = choose|k: nat, l: nat|
            k <= i + 1 && l <= j + 1 && #[trigger] collide(
                link_preimage(a.space, a.tokens, k),
                link_preimage(b.space, b.tokens, l),
            );
        lemma_link_is_digested(
            a_model,
            a_layout,
            a_order,
            a_shard,
            a_hasher,
            a_tokens,
            a_names,
            a,
            k,
        );
        lemma_link_is_digested(
            b_model,
            b_layout,
            b_order,
            b_shard,
            b_hasher,
            b_tokens,
            b_names,
            b,
            l,
        );
    }
}

} // verus!
