//! Replaying a workload: what a request asks the store, what the engine hands
//! back, and what it all adds up to.

use vstd::prelude::*;

use crate::evict::Costs;
use crate::store::{ChainRun, ChainStep, KvStore, Lookup};
use crate::trace::{block_payload, Request};

verus! {

/// Hit and requested tokens, in all and by turn.
#[derive(Debug)]
pub struct Tally {
    hit_tokens: usize,
    total_tokens: usize,
    per_turn: Vec<(usize, usize)>,
}

impl Tally {
    /// Tokens that the cache held.
    pub closed spec fn hits(&self) -> nat {
        self.hit_tokens as nat
    }

    /// Tokens that were asked for.
    pub closed spec fn total(&self) -> nat {
        self.total_tokens as nat
    }

    /// The same by turn.
    pub closed spec fn turns(&self) -> Seq<(usize, usize)> {
        self.per_turn@
    }

    /// The turns add up to the whole.
    pub open spec fn wf(&self) -> bool {
        &&& self.hits() == hits_in(self.turns())
        &&& self.total() == tokens_in(self.turns())
    }

    /// Nothing asked for yet, over `turns` turns.
    pub fn new(turns: usize) -> (tally: Self)
        ensures
            tally.wf(),
            tally.hits() == 0,
            tally.total() == 0,
            tally.turns() == Seq::new(turns as nat, |i: int| (0usize, 0usize)),
    {
        let mut per_turn: Vec<(usize, usize)> = Vec::new();
        let mut i: usize = 0;
        while i < turns
            invariant
                i <= turns,
                per_turn@.len() == i,
                forall|k: int| 0 <= k < i ==> #[trigger] per_turn@[k] == (0usize, 0usize),
                hits_in(per_turn@) == 0,
                tokens_in(per_turn@) == 0,
            decreases turns - i,
        {
            let ghost before = per_turn@;
            per_turn.push((0, 0));
            assert(per_turn@.drop_last() =~= before);
            i = i + 1;
        }
        assert(per_turn@ =~= Seq::new(turns as nat, |i: int| (0usize, 0usize)));
        Tally { hit_tokens: 0, total_tokens: 0, per_turn }
    }

    /// Count one request: `hit` of its `total` tokens were held.
    pub fn note(&mut self, turn: usize, hit: usize, total: usize)
        requires
            old(self).wf(),
            turn < old(self).turns().len(),
            hit <= total,
            old(self).hits() <= old(self).total(),
            old(self).total() + total <= usize::MAX,
        ensures
            final(self).wf(),
            final(self).hits() == old(self).hits() + hit,
            final(self).total() == old(self).total() + total,
            final(self).hits() <= final(self).total(),
            final(self).turns() == old(self).turns().update(
                turn as int,
                (
                    (old(self).turns()[turn as int].0 + hit) as usize,
                    (old(self).turns()[turn as int].1 + total) as usize,
                ),
            ),
    {
        proof {
            lemma_sums_bound(self.per_turn@, turn as int);
            lemma_sums_update(self.per_turn@, turn as int, hit, total);
        }
        let (hits, tokens): (usize, usize) = self.per_turn[turn];
        self.per_turn.set(turn, (hits + hit, tokens + total));
        self.hit_tokens = self.hit_tokens + hit;
        self.total_tokens = self.total_tokens + total;
    }

    pub fn hit_tokens(&self) -> (tokens: usize)
        ensures
            tokens == self.hits(),
    {
        self.hit_tokens
    }

    pub fn total_tokens(&self) -> (tokens: usize)
        ensures
            tokens == self.total(),
    {
        self.total_tokens
    }

    pub fn per_turn(&self) -> (turns: &Vec<(usize, usize)>)
        ensures
            turns@ == self.turns(),
    {
        &self.per_turn
    }
}

/// Hit tokens over all turns.
pub open spec fn hits_in(turns: Seq<(usize, usize)>) -> nat
    decreases turns.len(),
{
    if turns.len() == 0 {
        0
    } else {
        hits_in(turns.drop_last()) + turns.last().0 as nat
    }
}

/// Requested tokens over all turns.
pub open spec fn tokens_in(turns: Seq<(usize, usize)>) -> nat
    decreases turns.len(),
{
    if turns.len() == 0 {
        0
    } else {
        tokens_in(turns.drop_last()) + turns.last().1 as nat
    }
}

proof fn lemma_sums_bound(turns: Seq<(usize, usize)>, i: int)
    requires
        0 <= i < turns.len(),
    ensures
        turns[i].0 <= hits_in(turns),
        turns[i].1 <= tokens_in(turns),
    decreases turns.len(),
{
    if i < turns.len() - 1 {
        lemma_sums_bound(turns.drop_last(), i);
    }
}

proof fn lemma_sums_update(turns: Seq<(usize, usize)>, i: int, hit: usize, total: usize)
    requires
        0 <= i < turns.len(),
        turns[i].0 + hit <= usize::MAX,
        turns[i].1 + total <= usize::MAX,
    ensures
        ({
            let after = turns.update(
                i,
                ((turns[i].0 + hit) as usize, (turns[i].1 + total) as usize),
            );
            &&& hits_in(after) == hits_in(turns) + hit
            &&& tokens_in(after) == tokens_in(turns) + total
        }),
    decreases turns.len(),
{
    let after = turns.update(i, ((turns[i].0 + hit) as usize, (turns[i].1 + total) as usize));
    if i < turns.len() - 1 {
        lemma_sums_update(turns.drop_last(), i, hit, total);
        assert(after.drop_last() =~= turns.drop_last().update(
            i,
            ((turns[i].0 + hit) as usize, (turns[i].1 + total) as usize),
        ));
    } else {
        assert(after.drop_last() =~= turns.drop_last());
    }
}

/// Ask the store for a request's prompt, and count what it held.
pub fn probe<C: Costs>(
    store: &mut KvStore<C>,
    request: &Request,
    tally: &mut Tally,
) -> (found: Lookup)
    requires
        old(store).wf(),
        old(tally).wf(),
        request.turn < old(tally).turns().len(),
        old(tally).hits() <= old(tally).total(),
        old(tally).total() + request.tokens@.len() <= usize::MAX,
    ensures
        final(store).wf(),
        old(store).probes(final(store), found.hashes@, found.matched as nat),
        found.wf(),
        found.tokens_per_block == old(store).shape().tokens_per_block,
        found.hashes@.len() == request.tokens@.len() / found.tokens_per_block as nat,
        forall|i: int|
            0 <= i < found.hashes@.len() ==> (#[trigger] found.hashes@[i])@
                == crate::block::chain_name(
                old(store).root(),
                found.tokens_per_block as nat,
                request.tokens@,
                i as nat,
            ),
        final(tally).wf(),
        final(tally).hits() == old(tally).hits() + found.matched * found.tokens_per_block,
        final(tally).total() == old(tally).total() + request.tokens@.len(),
        final(tally).hits() <= final(tally).total(),
        final(tally).turns() == old(tally).turns().update(
            request.turn as int,
            (
                (old(tally).turns()[request.turn as int].0 + found.matched * found.tokens_per_block)
                    as usize,
                (old(tally).turns()[request.turn as int].1 + request.tokens@.len()) as usize,
            ),
        ),
{
    let found = store.lookup(request.tokens.as_slice());
    let total: usize = request.tokens.len();
    let hit: usize = found.hit_tokens();
    proof {
        let (matched, width) = (found.matched as int, found.tokens_per_block as int);
        assert(matched * width <= total) by (nonlinear_arith)
            requires
                0 <= matched <= total as int / width,
                width > 0,
        ;
    }
    tally.note(request.turn, hit, total);
    found
}

/// What the engine hands back once a request is complete: the bytes of every
/// full block of it, the generated ones among them.
pub fn completed_payloads<C: Costs>(store: &mut KvStore<C>, request: &Request) -> (payloads: Vec<
    Vec<u8>,
>)
    requires
        old(store).wf(),
    ensures
        final(store).wf(),
        exists|names: Seq<crate::block::BlockHash>, matched: nat|
            {
                &&& #[trigger] old(store).probes(final(store), names, matched)
                &&& names.len() == payloads@.len()
                &&& forall|i: int|
                    0 <= i < names.len() ==> (#[trigger] names[i])@ == crate::block::chain_name(
                        old(store).root(),
                        old(store).shape().tokens_per_block as nat,
                        request.completed@,
                        i as nat,
                    )
            },
        payloads@.len() == request.completed@.len() / old(store).shape().tokens_per_block as nat,
        forall|i: int|
            0 <= i < payloads@.len() ==> (#[trigger] payloads@[i])@ == crate::trace::payload_bytes(
                crate::block::chain_name(
                    old(store).root(),
                    old(store).shape().tokens_per_block as nat,
                    request.completed@,
                    i as nat,
                ),
                old(store).shape().size() as nat,
            ),
{
    let found = store.lookup(request.completed.as_slice());
    assert(old(store).probes(store, found.hashes@, found.matched as nat));
    let block_bytes: usize = store.block_bytes();
    let mut payloads: Vec<Vec<u8>> = Vec::new();
    let mut i: usize = 0;
    while i < found.hashes.len()
        invariant
            i <= found.hashes@.len(),
            payloads@.len() == i,
            block_bytes == old(store).shape().size(),
            forall|k: int|
                0 <= k < found.hashes@.len() ==> (#[trigger] found.hashes@[k])@
                    == crate::block::chain_name(
                    old(store).root(),
                    old(store).shape().tokens_per_block as nat,
                    request.completed@,
                    k as nat,
                ),
            forall|k: int|
                0 <= k < i ==> (#[trigger] payloads@[k])@ == crate::trace::payload_bytes(
                    found.hashes@[k]@,
                    block_bytes as nat,
                ),
        decreases found.hashes.len() - i,
    {
        payloads.push(block_payload(found.hashes[i], block_bytes));
        i = i + 1;
    }
    payloads
}

/// Hand back a request once it is complete: the whole conversation so far, what
/// the model generated included, from its first block on. `payloads[i]` holds
/// the bytes of the i-th full block.
pub fn admit_completed<C: Costs>(
    store: &mut KvStore<C>,
    request: &Request,
    payloads: &[&[u8]],
    run: ChainRun,
) -> (step: ChainStep)
    requires
        old(store).wf(),
        payloads@.len() <= request.completed@.len() / old(store).shape().tokens_per_block as nat,
        run.next() <= payloads@.len(),
        forall|i: int|
            0 <= i < payloads@.len() ==> (#[trigger] payloads@[i])@.len() == old(
                store,
            ).shape().size(),
    ensures
        final(store).wf(),
        old(store).admits_chain(
            final(store),
            None,
            crate::store::sequence_links(
                old(store).root(),
                old(store).shape().tokens_per_block as nat,
                request.completed@,
                payloads@.len(),
            ),
            payloads@,
            run,
            step,
        ),
{
    store.admit_sequence(request.completed.as_slice(), payloads, run)
}

/// How many blocks of memory a squeezed run gets: a percentage of the working
/// set, and never fewer than eight.
pub fn squeezed(working_set: usize, percent: usize) -> (blocks: usize)
    requires
        working_set * percent <= usize::MAX,
    ensures
        blocks == (if working_set * percent / 100 > 8 {
            working_set * percent / 100
        } else {
            8
        }),
{
    let share: usize = working_set * percent / 100;
    if share > 8 {
        share
    } else {
        8
    }
}

/// A squeezed run gets the largest number of blocks that is no more than that
/// percentage of the working set, but at least eight.
pub proof fn lemma_squeezed_is_a_percentage(working_set: usize, percent: usize, blocks: usize)
    requires
        call_ensures(squeezed, (working_set, percent), blocks),
    ensures
        blocks >= 8,
        blocks > 8 ==> 100 * blocks <= working_set * percent,
        100 * (blocks + 1) > working_set * percent,
{
}

/// What each turn hit and asked for adds up to what was hit and asked for in
/// all.
pub proof fn lemma_turns_add_up(tally: &Tally)
    requires
        tally.wf(),
    ensures
        tally.hits() == tally.turns().fold_left(0int, |sum: int, turn: (usize, usize)| sum + turn.0),
        tally.total() == tally.turns().fold_left(0int, |sum: int, turn: (usize, usize)| sum + turn.1),
{
    lemma_sums_fold(tally.turns());
}

proof fn lemma_sums_fold(turns: Seq<(usize, usize)>)
    ensures
        hits_in(turns) == turns.fold_left(0int, |sum: int, turn: (usize, usize)| sum + turn.0),
        tokens_in(turns) == turns.fold_left(0int, |sum: int, turn: (usize, usize)| sum + turn.1),
    decreases turns.len(),
{
    reveal_with_fuel(Seq::fold_left, 2);
    if turns.len() > 0 {
        lemma_sums_fold(turns.drop_last());
    }
}

/// A probe asks for the prompt and for nothing else. It finds the leading run
/// of the prompt's blocks that is held, counts the tokens of that run as hit and
/// all of the prompt as asked for, both under the request's turn alone.
pub proof fn lemma_probe_counts_the_leading_run<C: Costs>(
    store: &mut KvStore<C>,
    request: &Request,
    tally: &mut Tally,
    found: Lookup,
    turn: int,
)
    requires
        call_ensures(probe::<C>, (store, request, tally), found),
        request.turn < old(tally).turns().len(),
        old(tally).wf(),
        old(tally).hits() <= old(tally).total(),
        old(tally).total() + request.tokens@.len() <= usize::MAX,
        0 <= turn < old(tally).turns().len(),
    ensures
        ({
            let width = old(store).shape().tokens_per_block;
            let held = old(store).entries().dom();
            let was = old(tally).turns()[turn];
            let now = final(tally).turns()[turn];
            &&& found.matched <= found.hashes@.len()
            &&& forall|i: int|
                0 <= i < found.matched ==> held.contains((#[trigger] found.hashes@[i])@)
            &&& found.matched < found.hashes@.len() ==> !held.contains(
                found.hashes@[found.matched as int]@,
            )
            &&& final(tally).hits() == old(tally).hits() + found.matched * width
            &&& final(tally).total() == old(tally).total() + request.tokens@.len()
            &&& final(tally).turns().len() == old(tally).turns().len()
            &&& turn != request.turn ==> now == was
            &&& turn == request.turn ==> now.0 == was.0 + found.matched * width && now.1 == was.1
                + request.tokens@.len()
        }),
{
    let width = found.tokens_per_block as int;
    let matched = found.matched as int;
    let total = request.tokens@.len() as int;
    if width > 0 {
        assert(0 <= matched * width <= total) by (nonlinear_arith)
            requires
                0 <= matched <= total / width,
                width > 0,
        ;
    } else {
        assert(matched * 0 == 0);
    }
    lemma_sums_bound(old(tally).turns(), request.turn as int);
}

/// What the engine hands back is the whole conversation, what was generated
/// included: for each block that a lookup of it would name, the bytes of that
/// block.
pub proof fn lemma_whole_conversation_is_handed_back<C: Costs>(
    store: &mut KvStore<C>,
    request: &Request,
    payloads: Vec<Vec<u8>>,
    next: &mut KvStore<C>,
    completed: &[crate::block::TokenId],
    found: Lookup,
    i: int,
    payload: Vec<u8>,
)
    requires
        call_ensures(completed_payloads::<C>, (store, request), payloads),
        *old(next) == *final(store),
        completed@ == request.completed@,
        call_ensures(KvStore::<C>::lookup, (next, completed), found),
        0 <= i < found.hashes@.len(),
        call_ensures(
            block_payload,
            (found.hashes@[i], old(store).shape().size() as usize),
            payload,
        ),
        0 <= old(store).shape().size() <= usize::MAX,
    ensures
        payloads@.len() == found.hashes@.len(),
        payloads@[i]@ == payload@,
{
    assert(payloads@[i]@ == crate::trace::payload_bytes(
        crate::block::chain_name(
            old(store).root(),
            old(store).shape().tokens_per_block as nat,
            request.completed@,
            i as nat,
        ),
        old(store).shape().size() as nat,
    ));
}

} // verus!
