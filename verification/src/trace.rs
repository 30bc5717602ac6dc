//! Synthetic workloads: many conversations sharing one long system prompt,
//! each growing a turn at a time, interleaved as a real server sees them.

use vstd::prelude::*;

use crate::block::{BlockHash, TokenId};

verus! {

/// Small, fast, and uniform enough that token ids do not accidentally repeat
/// and inflate the hit rate.
pub struct SplitMix64 {
    state: u64,
}

/// The state after one draw.
pub open spec fn stepped(state: u64) -> u64 {
    state.wrapping_add(0x9E37_79B9_7F4A_7C15)
}

/// The state after `count` draws.
pub open spec fn advanced(state: u64, count: nat) -> u64
    decreases count,
{
    if count == 0 {
        state
    } else {
        stepped(advanced(state, (count - 1) as nat))
    }
}

/// What a state gives out.
pub open spec fn scrambled(state: u64) -> u64 {
    let a = (state ^ (state >> 30)).wrapping_mul(0xBF58_476D_1CE4_E5B9);
    let b = (a ^ (a >> 27)).wrapping_mul(0x94D0_49BB_1331_11EB);
    b ^ (b >> 31)
}

/// The `i`-th number drawn from a state.
pub open spec fn drawn(state: u64, i: nat) -> u64 {
    scrambled(advanced(state, i + 1))
}

/// The first `count` tokens drawn from a state.
pub open spec fn drawn_tokens(state: u64, count: nat, vocab: u32) -> Seq<TokenId> {
    Seq::new(count, |i: int| (drawn(state, i as nat) % vocab as u64) as u32)
}

proof fn lemma_advanced_twice(state: u64, a: nat, b: nat)
    ensures
        advanced(advanced(state, a), b) == advanced(state, a + b),
    decreases b,
{
    if b > 0 {
        lemma_advanced_twice(state, a, (b - 1) as nat);
    }
}

/// Each draw moves the state on by the same odd number, modulo 2^64.
pub proof fn lemma_draws_move_on_evenly(state: u64, count: nat)
    ensures
        advanced(state, count) as int == (state + count * 0x9E37_79B9_7F4A_7C15)
            % 0x1_0000_0000_0000_0000,
    decreases count,
{
    let step = 0x9E37_79B9_7F4A_7C15int;
    let all = 0x1_0000_0000_0000_0000int;
    if count > 0 {
        let before = (count - 1) as nat;
        lemma_draws_move_on_evenly(state, before);
        assert((before + 1) * step == before * step + step) by (nonlinear_arith);
        let whole = state + before * step;
        vstd::arithmetic::div_mod::lemma_add_mod_noop_right(step, whole, all);
        assert((step + whole % all) % all == (step + whole) % all);
    } else {
        assert(0 * step == 0);
    }
}

/// Different states give out different numbers: each number leads back to the
/// state it came from.
pub proof fn lemma_states_give_different_numbers(a: u64, b: u64)
    ensures
        scrambled(a) == scrambled(b) ==> a == b,
{
    lemma_scrambling_is_undone(a);
    lemma_scrambling_is_undone(b);
}

/// The numbers are those of SplitMix64: the `i`-th is the state that `i + 1`
/// steps lead to, run through two rounds of shifting, mixing and multiplying
/// and one more shift.
pub proof fn lemma_numbers_are_splitmix(state: u64, i: nat, z: u64, a: u64, b: u64)
    requires
        z as int == (state + (i + 1) * 0x9E37_79B9_7F4A_7C15) % 0x1_0000_0000_0000_0000,
        a as int == (z ^ (z >> 30)) * 0xBF58_476D_1CE4_E5B9 % 0x1_0000_0000_0000_0000,
        b as int == (a ^ (a >> 27)) * 0x94D0_49BB_1331_11EB % 0x1_0000_0000_0000_0000,
    ensures
        drawn(state, i) == b ^ (b >> 31),
{
    lemma_draws_move_on_evenly(state, i + 1);
}

/// Tokens are numbers drawn one after the other, each cut down to the
/// vocabulary; what is drawn in two goes is what is drawn in one.
pub proof fn lemma_tokens_follow_one_another(state: u64, a: nat, b: nat, vocab: u32)
    requires
        vocab > 0,
    ensures
        drawn_tokens(state, a + b, vocab) == drawn_tokens(state, a, vocab) + drawn_tokens(
            advanced(state, a),
            b,
            vocab,
        ),
        drawn_tokens(state, a, vocab).len() == a,
        forall|i: int|
            0 <= i < a ==> {
                &&& (#[trigger] drawn_tokens(state, a, vocab)[i]) as int == drawn(state, i as nat)
                    as int % vocab as int
                &&& drawn_tokens(state, a, vocab)[i] < vocab
            },
{
    let whole = drawn_tokens(state, a + b, vocab);
    let parts = drawn_tokens(state, a, vocab) + drawn_tokens(advanced(state, a), b, vocab);
    assert forall|i: int| 0 <= i < whole.len() implies whole[i] == parts[i] by {
        if i >= a {
            lemma_advanced_twice(state, a, (i - a + 1) as nat);
            assert(a + (i - a + 1) as nat == i as nat + 1);
        }
    }
    assert(whole =~= parts);
}

spec fn unscrambled(value: u64) -> u64 {
    let b: u64 = value ^ (value >> 31) ^ (value >> 62);
    let m: u64 = b.wrapping_mul(0x3196_42B2_D24D_8EC3);
    let a: u64 = m ^ (m >> 27) ^ (m >> 54);
    let n: u64 = a.wrapping_mul(0x96DE_1B17_3F11_9089);
    n ^ (n >> 30) ^ (n >> 60)
}

proof fn lemma_scrambling_is_undone(state: u64)
    ensures
        unscrambled(scrambled(state)) == state,
{
    let x: u64 = state ^ (state >> 30);
    let a: u64 = x.wrapping_mul(0xBF58_476D_1CE4_E5B9);
    let y: u64 = a ^ (a >> 27);
    let b: u64 = y.wrapping_mul(0x94D0_49BB_1331_11EB);
    let value: u64 = b ^ (b >> 31);
    assert(value ^ (value >> 31) ^ (value >> 62) == b) by (bit_vector)
        requires
            value == b ^ (b >> 31),
    ;
    lemma_mul_undone(y as int, 0x94D0_49BB_1331_11EB, 0x3196_42B2_D24D_8EC3);
    assert(b.wrapping_mul(0x3196_42B2_D24D_8EC3) == y);
    assert(y ^ (y >> 27) ^ (y >> 54) == a) by (bit_vector)
        requires
            y == a ^ (a >> 27),
    ;
    lemma_mul_undone(x as int, 0xBF58_476D_1CE4_E5B9, 0x96DE_1B17_3F11_9089);
    assert(a.wrapping_mul(0x96DE_1B17_3F11_9089) == x);
    assert(x ^ (x >> 30) ^ (x >> 60) == state) by (bit_vector)
        requires
            x == state ^ (state >> 30),
    ;
}

/// A product modulo 2^64 is undone by the inverse of the factor.
proof fn lemma_mul_undone(value: int, factor: int, inverse: int)
    requires
        0 <= value < 0x1_0000_0000_0000_0000,
        factor * inverse % 0x1_0000_0000_0000_0000 == 1,
    ensures
        ((value * factor) % 0x1_0000_0000_0000_0000) * inverse % 0x1_0000_0000_0000_0000 == value,
{
    let all = 0x1_0000_0000_0000_0000int;
    vstd::arithmetic::div_mod::lemma_mul_mod_noop_left(value * factor, inverse, all);
    assert(value * factor * inverse == value * (factor * inverse)) by (nonlinear_arith);
    vstd::arithmetic::div_mod::lemma_mul_mod_noop_right(value, factor * inverse, all);
    vstd::arithmetic::div_mod::lemma_small_mod(value as nat, all as nat);
}

impl SplitMix64 {
    pub closed spec fn seed(&self) -> u64 {
        self.state
    }

    pub fn new(seed: u64) -> (rng: Self)
        ensures
            rng.seed() == seed,
    {
        SplitMix64 { state: seed }
    }

    pub fn next_u64(&mut self) -> (value: u64)
        ensures
            value == drawn(old(self).seed(), 0),
            final(self).seed() == stepped(old(self).seed()),
    {
        proof {
            reveal_with_fuel(advanced, 2);
        }
        self.state = self.state.wrapping_add(0x9E37_79B9_7F4A_7C15);
        let z: u64 = self.state;
        let z: u64 = (z ^ (z >> 30)).wrapping_mul(0xBF58_476D_1CE4_E5B9);
        let z: u64 = (z ^ (z >> 27)).wrapping_mul(0x94D0_49BB_1331_11EB);
        z ^ (z >> 31)
    }

    pub fn token(&mut self, vocab: u32) -> (token: TokenId)
        requires
            vocab > 0,
        ensures
            token == (drawn(old(self).seed(), 0) % vocab as u64) as u32,
            token < vocab,
            final(self).seed() == stepped(old(self).seed()),
    {
        (self.next_u64() % vocab as u64) as u32
    }

    pub fn tokens(&mut self, count: usize, vocab: u32) -> (tokens: Vec<TokenId>)
        requires
            vocab > 0,
        ensures
            tokens@ == drawn_tokens(old(self).seed(), count as nat, vocab),
            final(self).seed() == advanced(old(self).seed(), count as nat),
    {
        let mut tokens: Vec<TokenId> = Vec::new();
        let mut i: usize = 0;
        while i < count
            invariant
                vocab > 0,
                i <= count,
                tokens@.len() == i,
                self.seed() == advanced(old(self).seed(), i as nat),
                forall|k: int|
                    0 <= k < i ==> #[trigger] tokens@[k] == drawn_tokens(
                        old(self).seed(),
                        count as nat,
                        vocab,
                    )[k],
            decreases count - i,
        {
            proof {
                lemma_advanced_twice(old(self).seed(), i as nat, 1);
            }
            let token: TokenId = self.token(vocab);
            tokens.push(token);
            i = i + 1;
        }
        assert(tokens@ =~= drawn_tokens(old(self).seed(), count as nat, vocab));
        tokens
    }

    /// A made-up block name: two numbers drawn one after the other, each with
    /// its least significant byte first.
    pub fn block_hash(&mut self) -> (hash: BlockHash)
        ensures
            crate::bytes::be(hash@ as nat, 16) == crate::bytes::le(
                drawn(old(self).seed(), 0) as nat,
                8,
            ) + crate::bytes::le(drawn(old(self).seed(), 1) as nat, 8),
            final(self).seed() == advanced(old(self).seed(), 2),
    {
        proof {
            reveal_with_fuel(advanced, 4);
        }
        let head: u64 = self.next_u64();
        let tail: u64 = self.next_u64();
        let mut bytes: Vec<u8> = Vec::new();
        crate::bytes::push_le(&mut bytes, head as u128, 8);
        crate::bytes::push_le(&mut bytes, tail as u128, 8);
        proof {
            crate::bytes::lemma_le_len(head as nat, 8);
            crate::bytes::lemma_le_len(tail as nat, 8);
            assert(bytes@ =~= crate::bytes::le(head as nat, 8) + crate::bytes::le(tail as nat, 8));
        }
        BlockHash::from_bytes(crate::bytes::array_of(bytes.as_slice()))
    }
}

/// Names and depths for a chain of `count` blocks that nothing was computed
/// for, one made-up name after another.
pub fn made_up_chain(rng: &mut SplitMix64, count: usize, tokens_per_block: usize) -> (links: Vec<
    (BlockHash, u32),
>)
    requires
        count * tokens_per_block <= usize::MAX,
    ensures
        links@.len() == count,
        forall|i: int|
            0 <= i < count ==> {
                &&& crate::bytes::be((#[trigger] links@[i]).0@ as nat, 16) == crate::bytes::le(
                    drawn(old(rng).seed(), (2 * i) as nat) as nat,
                    8,
                ) + crate::bytes::le(drawn(old(rng).seed(), (2 * i + 1) as nat) as nat, 8)
                &&& links@[i].1 == ((i + 1) * tokens_per_block) as u32
            },
        final(rng).seed() == advanced(old(rng).seed(), (2 * count) as nat),
{
    let mut links: Vec<(BlockHash, u32)> = Vec::with_capacity(count);
    let mut depth: usize = 0;
    let mut i: usize = 0;
    while i < count
        invariant
            i <= count,
            count * tokens_per_block <= usize::MAX,
            depth == i * tokens_per_block,
            links@.len() == i,
            rng.seed() == advanced(old(rng).seed(), (2 * i) as nat),
            forall|k: int|
                0 <= k < i ==> {
                    &&& crate::bytes::be((#[trigger] links@[k]).0@ as nat, 16)
                        == crate::bytes::le(drawn(old(rng).seed(), (2 * k) as nat) as nat, 8)
                        + crate::bytes::le(drawn(old(rng).seed(), (2 * k + 1) as nat) as nat, 8)
                    &&& links@[k].1 == ((k + 1) * tokens_per_block) as u32
                },
        decreases count - i,
    {
        proof {
            lemma_advanced_twice(old(rng).seed(), (2 * i) as nat, 1);
            lemma_advanced_twice(old(rng).seed(), (2 * i) as nat, 2);
            assert((i + 1) * tokens_per_block == depth + tokens_per_block) by (nonlinear_arith)
                requires
                    depth == i * tokens_per_block,
            ;
            assert((i + 1) * tokens_per_block <= count * tokens_per_block) by (nonlinear_arith)
                requires
                    i + 1 <= count,
            ;
        }
        let hash = rng.block_hash();
        depth = depth + tokens_per_block;
        links.push((hash, depth as u32));
        i = i + 1;
    }
    links
}

#[derive(Clone, Copy, Debug)]
pub struct WorkloadConfig {
    /// Shared across every conversation: the prefix we expect to dedup.
    pub system_prompt_tokens: usize,
    pub conversations: usize,
    pub turns_per_conversation: usize,
    pub user_turn_tokens: usize,
    pub reply_tokens: usize,
    pub vocab: u32,
    pub seed: u64,
}

impl Default for WorkloadConfig {
    fn default() -> (config: Self)
        ensures
            config == (WorkloadConfig {
                system_prompt_tokens: 512,
                conversations: 8,
                turns_per_conversation: 4,
                user_turn_tokens: 64,
                reply_tokens: 128,
                vocab: 32_000,
                seed: 0xC0FFEE,
            }),
    {
        WorkloadConfig {
            system_prompt_tokens: 512,
            conversations: 8,
            turns_per_conversation: 4,
            user_turn_tokens: 64,
            reply_tokens: 128,
            vocab: 32_000,
            seed: 0xC0FFEE,
        }
    }
}

/// Two sequences, because the cache sees a request at two moments: `tokens`
/// is the prompt we are *asked* about at prefill, `completed` adds the tokens
/// the model generated, which we are *given* at the end. Decode KV is just as
/// reusable, and dropping it costs a turn of hit length.
#[derive(Clone, Debug)]
pub struct Request {
    pub conversation: usize,
    pub turn: usize,
    pub tokens: Vec<TokenId>,
    pub completed: Vec<TokenId>,
}

/// A request as a value.
pub struct Exchange {
    pub conversation: nat,
    pub turn: nat,
    pub tokens: Seq<TokenId>,
    pub completed: Seq<TokenId>,
}

impl View for Request {
    type V = Exchange;

    open spec fn view(&self) -> Exchange {
        Exchange {
            conversation: self.conversation as nat,
            turn: self.turn as nat,
            tokens: self.tokens@,
            completed: self.completed@,
        }
    }
}

/// The prompt that all conversations start with.
pub open spec fn system_prompt(config: WorkloadConfig) -> Seq<TokenId> {
    drawn_tokens(config.seed, config.system_prompt_tokens as nat, config.vocab)
}

/// The state of the generator before exchange `i`.
pub open spec fn state_before(config: WorkloadConfig, i: nat) -> u64 {
    advanced(
        config.seed,
        config.system_prompt_tokens as nat + i * (config.user_turn_tokens as nat
            + config.reply_tokens as nat),
    )
}

/// What the user says in exchange `i`.
pub open spec fn user_tokens(config: WorkloadConfig, i: nat) -> Seq<TokenId> {
    drawn_tokens(state_before(config, i), config.user_turn_tokens as nat, config.vocab)
}

/// What the model replies in exchange `i`.
pub open spec fn reply_tokens(config: WorkloadConfig, i: nat) -> Seq<TokenId> {
    drawn_tokens(
        advanced(state_before(config, i), config.user_turn_tokens as nat),
        config.reply_tokens as nat,
        config.vocab,
    )
}

/// All that was said in a conversation before its turn `turn`.
pub open spec fn history(config: WorkloadConfig, conversation: nat, turn: nat) -> Seq<TokenId>
    decreases turn,
{
    if turn == 0 {
        system_prompt(config)
    } else {
        let i = ((turn - 1) * config.conversations + conversation) as nat;
        history(config, conversation, (turn - 1) as nat) + user_tokens(config, i) + reply_tokens(
            config,
            i,
        )
    }
}

/// The exchange of one conversation in one turn. Turns come round-robin, so
/// it is number `turn * conversations + conversation`.
pub open spec fn exchange(config: WorkloadConfig, conversation: nat, turn: nat) -> Exchange {
    let i = (turn * config.conversations + conversation) as nat;
    Exchange {
        conversation,
        turn,
        tokens: history(config, conversation, turn) + user_tokens(config, i),
        completed: history(config, conversation, turn + 1),
    }
}

/// Every prompt opens with the system prompt, what is completed continues the
/// prompt, and the next turn of a conversation continues from there.
pub proof fn lemma_prompts_grow(config: WorkloadConfig, conversation: nat, turn: nat)
    ensures
        system_prompt(config).is_prefix_of(exchange(config, conversation, turn).tokens),
        exchange(config, conversation, turn).tokens.is_prefix_of(
            exchange(config, conversation, turn).completed,
        ),
        exchange(config, conversation, turn).completed.is_prefix_of(
            exchange(config, conversation, turn + 1).tokens,
        ),
    decreases turn,
{
    let now = exchange(config, conversation, turn);
    let next = exchange(config, conversation, turn + 1);
    let i = (turn * config.conversations + conversation) as nat;
    assert((turn + 1 - 1) * config.conversations == turn * config.conversations);
    assert(now.completed =~= now.tokens + reply_tokens(config, i));
    assert(now.completed.take(now.tokens.len() as int) =~= now.tokens);
    assert(next.tokens.take(now.completed.len() as int) =~= now.completed);
    if turn > 0 {
        lemma_prompts_grow(config, conversation, (turn - 1) as nat);
        let before = exchange(config, conversation, (turn - 1) as nat);
        assert(system_prompt(config).len() <= before.tokens.len() <= now.tokens.len());
        assert(now.tokens.take(system_prompt(config).len() as int) =~= system_prompt(config));
    } else {
        assert(now.tokens.take(system_prompt(config).len() as int) =~= system_prompt(config));
    }
}

proof fn lemma_state_after_exchange(config: WorkloadConfig, i: nat)
    ensures
        advanced(
            advanced(state_before(config, i), config.user_turn_tokens as nat),
            config.reply_tokens as nat,
        ) == state_before(config, i + 1),
{
    let each = config.user_turn_tokens as nat + config.reply_tokens as nat;
    let done = config.system_prompt_tokens as nat + i * each;
    lemma_advanced_twice(config.seed, done, config.user_turn_tokens as nat);
    lemma_advanced_twice(
        config.seed,
        done + config.user_turn_tokens as nat,
        config.reply_tokens as nat,
    );
    assert((i + 1) * each == i * each + each) by (nonlinear_arith);
}

fn copy_tokens(tokens: &Vec<TokenId>) -> (copy: Vec<TokenId>)
    ensures
        copy@ == tokens@,
{
    vstd::slice::slice_to_vec(tokens.as_slice())
}

fn append_tokens(history: &mut Vec<TokenId>, tokens: &Vec<TokenId>)
    ensures
        final(history)@ == old(history)@ + tokens@,
{
    history.extend_from_slice(tokens.as_slice());
    assert(history@ =~= old(history)@ + tokens@);
}

/// Round-robin across conversations, so every turn 1 arrives before any
/// turn 2 -- the interleaving that stresses the cache.
pub fn generate(config: &WorkloadConfig) -> (requests: Vec<Request>)
    requires
        config.vocab > 0,
    ensures
        requests@.len() == config.turns_per_conversation * config.conversations,
        forall|turn: int, conversation: int|
            0 <= turn < config.turns_per_conversation && 0 <= conversation < config.conversations
                ==> (#[trigger] requests@[turn * config.conversations + conversation])@ == exchange(
                *config,
                conversation as nat,
                turn as nat,
            ),
{
    let mut rng = SplitMix64::new(config.seed);
    let prompt = rng.tokens(config.system_prompt_tokens, config.vocab);
    let mut histories: Vec<Vec<TokenId>> = Vec::new();
    let mut conversation: usize = 0;
    while conversation < config.conversations
        invariant
            conversation <= config.conversations,
            histories@.len() == conversation,
            prompt@ == system_prompt(*config),
            forall|c: int|
                0 <= c < conversation ==> (#[trigger] histories@[c])@ == history(
                    *config,
                    c as nat,
                    0,
                ),
        decreases config.conversations - conversation,
    {
        histories.push(copy_tokens(&prompt));
        conversation = conversation + 1;
    }
    let mut requests: Vec<Request> = Vec::new();
    let mut turn: usize = 0;
    let ghost width = config.conversations as int;
    proof {
        assert(0 * width == 0);
        assert(0 * (config.user_turn_tokens as nat + config.reply_tokens as nat) == 0);
    }
    while turn < config.turns_per_conversation
        invariant
            config.vocab > 0,
            width == config.conversations,
            turn <= config.turns_per_conversation,
            requests@.len() == turn * width,
            rng.seed() == state_before(*config, (turn * width) as nat),
            histories@.len() == width,
            forall|c: int|
                0 <= c < width ==> (#[trigger] histories@[c])@ == history(
                    *config,
                    c as nat,
                    turn as nat,
                ),
            forall|t: int, c: int|
                0 <= t < turn && 0 <= c < width ==> (#[trigger] requests@[t * width + c])@
                    == exchange(*config, c as nat, t as nat),
        decreases config.turns_per_conversation - turn,
    {
        let mut conversation: usize = 0;
        while conversation < config.conversations
            invariant
                config.vocab > 0,
                width == config.conversations,
                turn < config.turns_per_conversation,
                conversation <= config.conversations,
                requests@.len() == turn * width + conversation,
                rng.seed() == state_before(*config, (turn * width + conversation) as nat),
                histories@.len() == width,
                forall|c: int|
                    0 <= c < conversation ==> (#[trigger] histories@[c])@ == history(
                        *config,
                        c as nat,
                        (turn + 1) as nat,
                    ),
                forall|c: int|
                    conversation <= c < width ==> (#[trigger] histories@[c])@ == history(
                        *config,
                        c as nat,
                        turn as nat,
                    ),
                forall|t: int, c: int|
                    0 <= t < turn && 0 <= c < width ==> (#[trigger] requests@[t * width + c])@
                        == exchange(*config, c as nat, t as nat),
                forall|c: int|
                    0 <= c < conversation ==> (#[trigger] requests@[turn * width + c])@
                        == exchange(*config, c as nat, turn as nat),
            decreases config.conversations - conversation,
        {
            let ghost i = (turn * width + conversation) as nat;
            let ghost before = requests@;
            let mut said: Vec<TokenId> = copy_tokens(&histories[conversation]);
            let user = rng.tokens(config.user_turn_tokens, config.vocab);
            append_tokens(&mut said, &user);
            let prompt = copy_tokens(&said);
            // The model's own reply becomes part of the prefix for next turn.
            let reply = rng.tokens(config.reply_tokens, config.vocab);
            append_tokens(&mut said, &reply);
            let completed = copy_tokens(&said);
            histories.set(conversation, said);
            let request = Request { conversation, turn, tokens: prompt, completed };
            proof {
                lemma_state_after_exchange(*config, i);
                assert((turn + 1 - 1) * width == turn * width);
                assert(request@.completed =~= history(
                    *config,
                    conversation as nat,
                    (turn + 1) as nat,
                ));
            }
            requests.push(request);
            proof {
                assert forall|t: int, c: int| 0 <= t < turn && 0 <= c < width implies (
                #[trigger] requests@[t * width + c])@ == exchange(
                    *config,
                    c as nat,
                    t as nat,
                ) by {
                    assert(t * width + c < turn * width) by (nonlinear_arith)
                        requires
                            0 <= t < turn,
                            0 <= c < width,
                    ;
                    assert(0 <= t * width + c) by (nonlinear_arith)
                        requires
                            0 <= t,
                            0 <= c < width,
                    ;
                    assert(requests@[t * width + c] == before[t * width + c]);
                }
            }
            conversation = conversation + 1;
        }
        proof {
            assert((turn + 1) * width == turn * width + width) by (nonlinear_arith);
            assert forall|t: int, c: int| 0 <= t < turn + 1 && 0 <= c < width implies (
            #[trigger] requests@[t * width + c])@ == exchange(*config, c as nat, t as nat) by {
                if t == turn {
                    assert(requests@[turn * width + c]@ == exchange(
                        *config,
                        c as nat,
                        turn as nat,
                    ));
                }
            }
        }
        turn = turn + 1;
    }
    requests
}

/// Where the tokens of a conversation come from: turn by turn it goes on with
/// the numbers drawn for that very exchange.
proof fn lemma_history_is_drawn(config: WorkloadConfig, conversation: nat, turn: nat)
    requires
        config.vocab > 0,
    ensures
        ({
            let prompt = config.system_prompt_tokens as int;
            let each = config.user_turn_tokens + config.reply_tokens;
            let said = history(config, conversation, turn);
            &&& said.len() == prompt + turn * each
            &&& forall|k: int|
                0 <= k < prompt ==> #[trigger] said[k] as int == drawn(config.seed, k as nat) as int
                    % config.vocab as int
        }),
    decreases turn,
{
    let prompt = config.system_prompt_tokens as int;
    let each = config.user_turn_tokens + config.reply_tokens;
    if turn == 0 {
        assert(0 * each == 0);
    } else {
        lemma_history_is_drawn(config, conversation, (turn - 1) as nat);
        assert(turn * each == (turn - 1) * each + each) by (nonlinear_arith);
        assert((turn - 1) * each >= 0) by (nonlinear_arith)
            requires
                turn >= 1,
                each >= 0,
        ;
        let before = history(config, conversation, (turn - 1) as nat);
        let said = history(config, conversation, turn);
        assert forall|k: int| 0 <= k < prompt implies #[trigger] said[k] as int == drawn(
            config.seed,
            k as nat,
        ) as int % config.vocab as int by {
            assert(said[k] == before[k]);
        }
    }
}

/// What is said in an exchange is what is drawn for it.
proof fn lemma_exchange_is_drawn(config: WorkloadConfig, conversation: nat, turn: nat, k: int)
    requires
        config.vocab > 0,
        0 <= k < config.user_turn_tokens + config.reply_tokens,
    ensures
        ({
            let prompt = config.system_prompt_tokens as int;
            let each = config.user_turn_tokens + config.reply_tokens;
            let i = turn * config.conversations + conversation;
            history(config, conversation, turn + 1)[prompt + turn * each + k] as int == drawn(
                config.seed,
                (prompt + i * each + k) as nat,
            ) as int % config.vocab as int
        }),
{
    let prompt = config.system_prompt_tokens as int;
    let each = config.user_turn_tokens + config.reply_tokens;
    let i = (turn * config.conversations + conversation) as nat;
    let start = (prompt + i * each) as nat;
    let user = config.user_turn_tokens as nat;
    lemma_history_is_drawn(config, conversation, turn);
    let before = history(config, conversation, turn);
    assert((turn + 1 - 1) * config.conversations == turn * config.conversations);
    let at = prompt + turn * each + k;
    assert(history(config, conversation, turn + 1) == before + user_tokens(config, i)
        + reply_tokens(config, i));
    lemma_advanced_twice(config.seed, start, user);
    if k < user {
        assert(history(config, conversation, turn + 1)[at] == user_tokens(config, i)[k]);
        lemma_advanced_twice(config.seed, start, (k + 1) as nat);
    } else {
        assert(history(config, conversation, turn + 1)[at] == reply_tokens(config, i)[k - user]);
        lemma_advanced_twice(config.seed, start + user, (k - user + 1) as nat);
        assert(start + user + (k - user + 1) as nat == (start + k) as nat + 1);
    }
}

/// No two exchanges use the same draws. One generator draws the system prompt,
/// then what is said in each request in the order in which they come: a
/// request carries on with the numbers right behind those of the request
/// before it, and repeats what its own conversation has said so far.
pub proof fn lemma_requests_share_only_the_prompt(
    config: &WorkloadConfig,
    requests: Vec<Request>,
    turn: int,
    conversation: int,
)
    requires
        config.vocab > 0,
        call_ensures(generate, (config,), requests),
        0 <= turn < config.turns_per_conversation,
        0 <= conversation < config.conversations,
    ensures
        requests@.len() == config.turns_per_conversation * config.conversations,
        ({
            let prompt = config.system_prompt_tokens as int;
            let each = config.user_turn_tokens + config.reply_tokens;
            let i = turn * config.conversations + conversation;
            let request = requests@[i];
            &&& request.turn == turn
            &&& request.conversation == conversation
            &&& request.tokens@.len() == prompt + turn * each + config.user_turn_tokens
            &&& request.completed@.len() == prompt + turn * each + each
            &&& request.tokens@ == request.completed@.take(request.tokens@.len() as int)
            &&& forall|k: int|
                0 <= k < prompt ==> (#[trigger] request.completed@[k]) as int == drawn(
                    config.seed,
                    k as nat,
                ) as int % config.vocab as int
            &&& forall|k: int|
                0 <= k < each ==> (#[trigger] request.completed@[prompt + turn * each + k]) as int
                    == drawn(config.seed, (prompt + i * each + k) as nat) as int
                    % config.vocab as int
            &&& turn > 0 ==> request.completed@.take(prompt + turn * each)
                == requests@[(turn - 1) * config.conversations + conversation].completed@
        }),
{
    let prompt = config.system_prompt_tokens as int;
    let each = config.user_turn_tokens + config.reply_tokens;
    let i = turn * config.conversations + conversation;
    let request = requests@[i];
    assert(request@ == exchange(*config, conversation as nat, turn as nat));
    assert(request.tokens@ == request@.tokens && request.completed@ == request@.completed);
    lemma_prompts_grow(*config, conversation as nat, turn as nat);
    lemma_history_is_drawn(*config, conversation as nat, turn as nat);
    lemma_history_is_drawn(*config, conversation as nat, (turn + 1) as nat);
    assert((turn + 1) * each == turn * each + each) by (nonlinear_arith);
    assert forall|k: int| 0 <= k < each implies (#[trigger] request.completed@[prompt + turn * each
        + k]) as int == drawn(config.seed, (prompt + i * each + k) as nat) as int
        % config.vocab as int by {
        lemma_exchange_is_drawn(*config, conversation as nat, turn as nat, k);
    }
    if turn > 0 {
        let before = requests@[(turn - 1) * config.conversations + conversation];
        assert(before@ == exchange(*config, conversation as nat, (turn - 1) as nat));
        assert(before.completed@ == before@.completed);
        assert((turn - 1 + 1) as nat == turn as nat);
        lemma_prompts_grow(*config, conversation as nat, (turn - 1) as nat);
        assert(before.completed@.is_prefix_of(request.completed@));
        assert(request.completed@.take(prompt + turn * each) =~= before.completed@);
    }
}

/// Stand-in for the KV bytes of a block: words drawn from its name, least
/// significant byte first, cut off at `len` bytes.
pub open spec fn payload_bytes(name: u128, len: nat) -> Seq<u8> {
    let seed = crate::bytes::le_value(crate::bytes::be(name as nat, 16).subrange(0, 8)) as u64;
    Seq::new(
        len,
        |i: int| crate::bytes::le(drawn(seed, (i / 8) as nat) as nat, 8)[i % 8],
    )
}

/// Deterministic stand-in for KV bytes, derived from the block's name so a
/// read-back can be checked.
pub fn fill_block(dst: &mut [u8], hash: BlockHash)
    ensures
        final(dst)@ == payload_bytes(hash@, old(dst)@.len()),
{
    let seed: u64 = hash.bucket_key();
    let mut rng = SplitMix64::new(seed);
    let len: usize = dst.len();
    let mut word: Vec<u8> = Vec::new();
    let mut i: usize = 0;
    while i < len
        invariant
            i <= len,
            len == dst@.len(),
            len == old(dst)@.len(),
            seed as nat == crate::bytes::le_value(
                crate::bytes::be(hash@ as nat, 16).subrange(0, 8),
            ),
            i % 8 == 0 ==> rng.seed() == advanced(seed, (i / 8) as nat),
            i % 8 != 0 ==> rng.seed() == advanced(seed, (i / 8 + 1) as nat),
            i % 8 != 0 ==> word@ == crate::bytes::le(drawn(seed, (i / 8) as nat) as nat, 8),
            forall|k: int|
                0 <= k < i ==> #[trigger] dst@[k] == payload_bytes(hash@, len as nat)[k],
        decreases len - i,
    {
        if i % 8 == 0 {
            proof {
                lemma_advanced_twice(seed, (i / 8) as nat, 1);
            }
            let value: u64 = rng.next_u64();
            word = Vec::new();
            crate::bytes::push_le(&mut word, value as u128, 8);
            assert(word@ =~= crate::bytes::le(value as nat, 8));
        }
        proof {
            crate::bytes::lemma_le_len(drawn(seed, (i / 8) as nat) as nat, 8);
        }
        dst[i] = word[i % 8];
        i = i + 1;
    }
    assert(dst@ =~= payload_bytes(hash@, len as nat));
}

/// A block's bytes are the words that its name draws: word `k` is the `k`-th
/// number drawn from the first eight bytes of the name, least significant byte
/// first. A longer block starts with the bytes of a shorter one.
pub proof fn lemma_payload_is_drawn(hash: BlockHash, len: usize, payload: Vec<u8>, i: int)
    requires
        call_ensures(block_payload, (hash, len), payload),
        0 <= i < len,
    ensures
        payload@.len() == len,
        ({
            let name = crate::bytes::be(hash@ as nat, 16);
            let seed = crate::bytes::le_value(name.subrange(0, 8)) as u64;
            payload@[i] == crate::bytes::le(drawn(seed, (i / 8) as nat) as nat, 8)[i % 8]
        }),
{
}

/// What is read back can be checked: blocks whose names differ in their first
/// eight bytes differ in every word.
pub proof fn lemma_payloads_tell_names_apart(
    a: BlockHash,
    b: BlockHash,
    len: usize,
    a_payload: Vec<u8>,
    b_payload: Vec<u8>,
    k: int,
)
    requires
        call_ensures(block_payload, (a, len), a_payload),
        call_ensures(block_payload, (b, len), b_payload),
        0 <= k && 8 * k + 8 <= len,
        a_payload@.subrange(8 * k, 8 * k + 8) == b_payload@.subrange(8 * k, 8 * k + 8),
    ensures
        crate::bytes::be(a@ as nat, 16).subrange(0, 8) == crate::bytes::be(
            b@ as nat,
            16,
        ).subrange(0, 8),
{
    let a_head = crate::bytes::be(a@ as nat, 16).subrange(0, 8);
    let b_head = crate::bytes::be(b@ as nat, 16).subrange(0, 8);
    crate::bytes::lemma_be_len(a@ as nat, 16);
    crate::bytes::lemma_be_len(b@ as nat, 16);
    let a_seed = crate::bytes::le_value(a_head) as u64;
    let b_seed = crate::bytes::le_value(b_head) as u64;
    let x = drawn(a_seed, k as nat);
    let y = drawn(b_seed, k as nat);
    crate::bytes::lemma_le_len(x as nat, 8);
    crate::bytes::lemma_le_len(y as nat, 8);
    assert forall|j: int| 0 <= j < 8 implies crate::bytes::le(x as nat, 8)[j] == crate::bytes::le(
        y as nat,
        8,
    )[j] by {
        let i = 8 * k + j;
        assert(i / 8 == k && i % 8 == j);
        assert(a_payload@[i] == a_payload@.subrange(8 * k, 8 * k + 8)[j]);
        assert(b_payload@[i] == b_payload@.subrange(8 * k, 8 * k + 8)[j]);
    }
    assert(crate::bytes::le(x as nat, 8) =~= crate::bytes::le(y as nat, 8));
    crate::bytes::lemma_spans();
    crate::bytes::lemma_le_injective(x as nat, y as nat, 8);
    lemma_states_give_different_numbers(
        advanced(a_seed, k as nat + 1),
        advanced(b_seed, k as nat + 1),
    );
    lemma_steps_are_undone(a_seed, b_seed, k as nat + 1);
    crate::bytes::lemma_le_value_bound(a_head);
    crate::bytes::lemma_le_value_bound(b_head);
    crate::bytes::lemma_le_of_value(a_head);
    crate::bytes::lemma_le_of_value(b_head);
}

proof fn lemma_steps_are_undone(a: u64, b: u64, count: nat)
    requires
        advanced(a, count) == advanced(b, count),
    ensures
        a == b,
    decreases count,
{
    if count > 0 {
        lemma_steps_are_undone(a, b, (count - 1) as nat);
    }
}

pub fn block_payload(hash: BlockHash, block_bytes: usize) -> (payload: Vec<u8>)
    ensures
        payload@ == payload_bytes(hash@, block_bytes as nat),
{
    let mut buffer: Vec<u8> = Vec::new();
    buffer.resize(block_bytes, 0);
    fill_block(buffer.as_mut_slice(), hash);
    buffer
}

} // verus!
