//! What holds of a store across calls.

use vstd::prelude::*;

use super::{
    Admit, AdmitStep, ChainRun, ChainStep, FetchPart, FetchRun, FetchStep, KvStore, Opened, PinRun,
    PinStep, Promotion, Writeback,
};
use crate::block::{BlockHash, TokenId};
use crate::evict::Costs;
use crate::index::{Entry, Place};
use crate::slab::PinnedBlock;

verus! {

/// As many slots are taken as blocks own and as are held in reserve.
proof fn lemma_tally(
    at: Map<u128, u32>,
    owner: Map<u32, u128>,
    held: Set<u32>,
    taken: Set<u32>,
)
    requires
        crate::ledger::tallies(at, owner, held, taken),
        taken.finite(),
    ensures
        at.dom().finite(),
        held.finite(),
        taken.len() == at.dom().len() + held.len(),
    decreases taken.len(),
{
    if taken.len() == 0 {
        assert(at.dom() =~= Set::empty()) by {
            assert forall|name: u128| !at.dom().contains(name) by {
                if at.dom().contains(name) {
                    assert(owner.dom().contains(at[name]));
                    assert(taken.contains(at[name]));
                }
            }
        }
        assert(held =~= Set::empty());
    } else {
        let slot = taken.choose();
        assert(taken.contains(slot)) by {
            vstd::set::axiom_set_choose_len(taken);
        }
        if held.contains(slot) {
            crate::ledger::lemma_let_go(at, owner, held, taken, slot);
            lemma_tally(at, owner, held.remove(slot), taken.remove(slot));
            assert(held =~= held.remove(slot).insert(slot));
        } else {
            let name = owner[slot];
            assert(owner.dom().contains(slot));
            crate::ledger::lemma_vacate(at, owner, held, taken, name);
            lemma_tally(at.remove(name), owner.remove(slot), held, taken.remove(slot));
            assert(at.dom() =~= at.remove(name).dom().insert(name));
        }
    }
}

/// How many of the first `count` blocks are on disk only.
pub open spec fn to_read(
    entries: Map<u128, Entry>,
    hashes: Seq<BlockHash>,
    count: nat,
) -> nat
    decreases count,
{
    if count == 0 {
        0
    } else {
        to_read(entries, hashes, (count - 1) as nat) + if entries[hashes[count - 1]@].place is Disk {
            1nat
        } else {
            0nat
        }
    }
}

proof fn lemma_to_read_grows(
    entries: Map<u128, Entry>,
    hashes: Seq<BlockHash>,
    some: nat,
    more: nat,
)
    requires
        some <= more,
    ensures
        to_read(entries, hashes, some) <= to_read(entries, hashes, more),
    decreases more,
{
    if some < more {
        lemma_to_read_grows(entries, hashes, some, (more - 1) as nat);
    }
}

impl<C: Costs> KvStore<C> {
    /// The blocks of a store have a size that can be worked out, and cover at
    /// least one token.
    pub proof fn lemma_blocks_have_a_size(&self)
        requires
            self.wf(),
        ensures
            self.shape().sized(),
            self.shape().size() > 0,
            self.shape().tokens_per_block > 0,
    {
        self.slab.lemma_shape();
    }

    /// No slot leaks. Every slot in memory is free, or holds one resident
    /// block, or is held in reserve for one on its way in; and every slot on
    /// disk is free, or holds the only copy or the spare copy of one resident
    /// block, or is held in reserve for one on its way out.
    pub proof fn lemma_slots_add_up(&self)
        requires
            self.wf(),
        ensures
            crate::ledger::ram_map(self.entries()).dom().finite(),
            self.reserved().finite(),
            self.slots() == self.free_slots() + crate::ledger::ram_map(self.entries()).dom().len()
                + self.reserved().len(),
            crate::ledger::disk_map(self.entries()).dom().finite(),
            self.reserved_on_disk().finite(),
            self.disk_slots() == self.free_disk_slots() + crate::ledger::disk_map(
                self.entries(),
            ).dom().len() + self.reserved_on_disk().len(),
    {
        self.slab.lemma_shape();
        lemma_tally(
            crate::ledger::ram_map(self.index@),
            self.ledger@.ram_owner,
            self.ledger@.ram_held,
            self.slab.taken(),
        );
        if let Some(disk) = self.disk {
            disk.lemma_shape();
        }
        lemma_tally(
            crate::ledger::disk_map(self.index@),
            self.ledger@.disk_owner,
            self.ledger@.disk_held,
            self.disk_taken(),
        );
    }

    /// No two blocks lie in the same place in either tier, and none lies in a
    /// slot that is held in reserve.
    pub proof fn lemma_blocks_lie_apart(&self, a: u128, b: u128)
        requires
            self.wf(),
            self.entries().dom().contains(a),
            self.entries().dom().contains(b),
        ensures
            self.entries()[a].place.slot() matches Some(slot) ==> {
                &&& slot.number < self.slots()
                &&& !self.reserved().contains(slot.number)
                &&& self.entries()[b].place.slot() == Some(slot) ==> a == b
            },
            self.entries()[a].place.copy() matches Some(copy) ==> {
                &&& copy.number < self.disk_slots()
                &&& !self.reserved_on_disk().contains(copy.number)
                &&& self.entries()[b].place.copy() == Some(copy) ==> a == b
            },
    {
        self.slab.lemma_shape();
        if let Some(disk) = self.disk {
            disk.lemma_shape();
        }
        let ram = crate::ledger::ram_map(self.index@);
        let disk = crate::ledger::disk_map(self.index@);
        if self.entries()[a].place.slot() is Some {
            assert(ram.dom().contains(a));
            assert(self.ledger@.ram_owner.dom().contains(ram[a]));
            if self.entries()[b].place.slot() == self.entries()[a].place.slot() {
                assert(ram.dom().contains(b));
            }
        }
        if self.entries()[a].place.copy() is Some {
            assert(disk.dom().contains(a));
            assert(self.ledger@.disk_owner.dom().contains(disk[a]));
            if self.entries()[b].place.copy() == self.entries()[a].place.copy() {
                assert(disk.dom().contains(b));
            }
        }
    }

    /// A block is useless without every block before it, so every block of
    /// its history is resident: from any resident block one can go up to the
    /// first of its sequence without meeting a gap.
    pub proof fn lemma_histories_are_resident(&self, name: u128) -> (path: Seq<u128>)
        requires
            self.wf(),
            self.entries().dom().contains(name),
        ensures
            crate::index::leads_to_root(self.entries(), path),
            path[0] == name,
    {
        self.index.lemma_every_prefix_is_resident(name)
    }

    /// Whatever something hangs below stays: a block that others hang below
    /// is no leaf, so it is never what gives way by being dropped.
    pub proof fn lemma_parents_are_not_dropped(&self, child: u128, protect: Option<BlockHash>)
        requires
            self.wf(),
            self.entries().dom().contains(child),
        ensures
            self.entries()[child].parent matches Some(parent) ==> {
                &&& self.entries().dom().contains(parent@)
                &&& !super::is_spare(self.entries(), protect, parent@)
                &&& !super::is_spare_on_disk(self.entries(), protect, parent@)
            },
    {
        self.index.lemma_parents_are_no_leaves(child);
    }

    /// A block that is the same block after each of two calls is the same
    /// block after both. So what was admitted is what is read, however often
    /// it has moved between the tiers since.
    pub proof fn lemma_memory_lasts(&self, between: &Self, after: &Self, name: u128)
        requires
            self.remembers(between, name),
            between.remembers(after, name),
        ensures
            self.remembers(after, name),
    {
    }

    /// Finding a block again and repricing it, moving it to disk, or holding
    /// it open does not change what it is.
    pub proof fn lemma_carried_is_remembered(&self, after: &Self, name: u128)
        requires
            self.carries(after, name),
        ensures
            self.remembers(after, name),
    {
    }

    /// What is put is what is got. A block that a chain brought in holds the
    /// bytes that came with it, hangs where the chain said and is as deep as
    /// the chain said, for as long as it is the same block.
    pub proof fn lemma_put_is_got(
        &self,
        after: &Self,
        parent: Option<BlockHash>,
        names: Seq<(BlockHash, u32)>,
        blocks: Seq<&[u8]>,
        run: ChainRun,
        step: ChainStep,
        later: &Self,
        name: u128,
    ) -> (i: int)
        requires
            self.admits_chain(after, parent, names, blocks, run, step),
            !self.entries().dom().contains(name),
            after.remembers(later, name),
        ensures
            run.next() <= i < names.len(),
            names[i].0@ == name,
            later.contents(name) == blocks[i]@,
            later.entries()[name].parent == super::link_above(parent, names, i),
            later.entries()[name].depth_tokens == names[i].1,
    {
        assert(after.entries().dom().contains(name));
        choose|i: int|
            run.next() <= i < names.len() && #[trigger] after.came_with(
                parent,
                names,
                blocks,
                i,
                name,
            )
    }

    /// One more step of a walk over resident blocks changes nothing.
    proof fn lemma_resident_walk(
        trace: Seq<Self>,
        steps: Seq<AdmitStep>,
        parent: Option<BlockHash>,
        names: Seq<(BlockHash, u32)>,
        blocks: Seq<&[u8]>,
        first: int,
        k: int,
    )
        requires
            Self::is_walk(trace, steps, parent, names, blocks, first),
            0 <= first,
            first + steps.len() <= names.len(),
            0 <= k <= steps.len(),
            forall|i: int|
                first <= i < names.len() ==> trace[0].entries().dom().contains(
                    (#[trigger] names[i]).0@,
                ),
        ensures
            trace[k].entries() == trace[0].entries(),
            trace[k].free_slots() == trace[0].free_slots(),
            forall|name: u128| #[trigger]
                trace[0].entries().dom().contains(name) ==> trace[k].contents(name)
                    == trace[0].contents(name),
            forall|j: int|
                0 <= j < k ==> #[trigger] steps[j] == AdmitStep::Done(Admit::AlreadyPresent),
            super::taken_in(steps.take(k)) == 0,
            super::found_in(steps.take(k)) == k,
        decreases k,
    {
        if k > 0 {
            Self::lemma_resident_walk(trace, steps, parent, names, blocks, first, k - 1);
            reveal(KvStore::is_walk);
            let step = steps[k - 1];
            assert(trace[0].entries().dom().contains(names[first + k - 1].0@));
            assert(trace[k - 1].admits(
                &trace[k],
                names[first + k - 1].0,
                super::link_above(parent, names, first + k - 1),
                names[first + k - 1].1,
                blocks[first + k - 1]@,
                step,
            ));
            assert(step == AdmitStep::Done(Admit::AlreadyPresent));
            assert(steps.take(k).drop_last() =~= steps.take(k - 1));
        }
    }

    /// Deduplication. Admitting a chain whose blocks are all resident stores
    /// nothing and gives nothing up, however little memory there is: every
    /// block is found, and keeps the bytes that it had.
    pub proof fn lemma_resident_is_not_stored_again(
        &self,
        after: &Self,
        parent: Option<BlockHash>,
        names: Seq<(BlockHash, u32)>,
        blocks: Seq<&[u8]>,
        run: ChainRun,
        step: ChainStep,
    )
        requires
            self.admits_chain(after, parent, names, blocks, run, step),
            forall|i: int|
                run.next() <= i < names.len() ==> self.entries().dom().contains(
                    (#[trigger] names[i]).0@,
                ),
        ensures
            step matches ChainStep::Done(report) && report.inserted == run.stored()
                && report.dropped == 0,
            after.entries() == self.entries(),
            after.free_slots() == self.free_slots(),
            forall|name: u128| #[trigger]
                self.entries().dom().contains(name) ==> after.contents(name) == self.contents(name),
    {
        let first = run.next() as int;
        let (trace, steps) = choose|trace: Seq<Self>, steps: Seq<AdmitStep>|
            {
                &&& #[trigger] self.walks_chain(after, parent, names, blocks, first, trace, steps)
                &&& match step {
                    ChainStep::Done(report) => {
                        &&& report.inserted == run.stored() + super::taken_in(steps)
                        &&& report.deduped == run.found() + super::found_in(steps)
                        &&& steps.len() > 0 ==> !(steps.last() is Demote)
                    },
                    ChainStep::Demote(demotion, next) => {
                        &&& next.stored() == run.stored() + super::taken_in(steps)
                        &&& next.found() == run.found() + super::found_in(steps)
                        &&& steps.len() > 0 && steps.last() == AdmitStep::Demote(demotion)
                    },
                }
            };
        let count = steps.len() as int;
        Self::lemma_resident_walk(trace, steps, parent, names, blocks, first, count);
        assert(steps.take(count) =~= steps);
        if count > 0 {
            assert(steps[count - 1] == steps.last());
        }
    }

    /// The first `k` blocks of a resident run are held open where they lie, as
    /// long as there is memory for those on disk.
    proof fn lemma_open_run(
        trace: Seq<Self>,
        opened: Seq<Opened>,
        hashes: Seq<BlockHash>,
        matched: nat,
        k: nat,
    )
        requires
            Self::is_opening(trace, opened, hashes, 0, false),
            trace.len() == opened.len() + 1,
            crate::index::is_resident_run(trace[0].entries(), hashes, matched),
            trace[0].free_slots() >= to_read(trace[0].entries(), hashes, matched),
            forall|i: int|
                0 <= i < matched ==> trace[0].entries()[(#[trigger] hashes[i])@].pins + matched
                    <= u64::MAX,
            k <= matched,
            k <= opened.len(),
        ensures
            trace[k as int].entries().dom() == trace[0].entries().dom(),
            trace[k as int].free_slots() + to_read(trace[0].entries(), hashes, k)
                == trace[0].free_slots(),
            forall|name: u128| #[trigger]
                trace[0].entries().dom().contains(name) ==> {
                    &&& trace[k as int].entries()[name].place == trace[0].entries()[name].place
                    &&& trace[k as int].entries()[name].pins <= trace[0].entries()[name].pins + k
                    &&& trace[k as int].contents(name) == trace[0].contents(name)
                },
            forall|j: int|
                0 <= j < k ==> match #[trigger] opened[j] {
                    Opened::Ready(block) => {
                        &&& trace[0].entries()[hashes[j]@].place is Ram
                        &&& block.name() == hashes[j]@
                        &&& block.payload() == trace[0].contents(hashes[j]@)
                    },
                    Opened::Pending(promotion) => {
                        &&& trace[0].entries()[hashes[j]@].place == Place::Disk(promotion.source())
                        &&& promotion.name() == hashes[j]@
                    },
                    _ => false,
                },
        decreases k,
    {
        if k > 0 {
            let i = (k - 1) as nat;
            Self::lemma_open_run(trace, opened, hashes, matched, i);
            lemma_to_read_grows(trace[0].entries(), hashes, k, matched);
            reveal(KvStore::is_opening);
            reveal(KvStore::opens);
            let (before, after, hash) = (trace[i as int], trace[k as int], hashes[i as int]);
            assert(trace[0].entries().dom().contains(hash@));
            assert(before.opens(&after, hash, false, opened[i as int]));
            let held = choose|held: Self|
                {
                    &&& #[trigger] before.is_held(&held, hash, false)
                    &&& match opened[i as int] {
                        Opened::Ready(block) => {
                            &&& held.entries()[hash@].place is Ram
                            &&& after == held
                            &&& block.name() == hash@
                            &&& block.payload() == held.contents(hash@)
                        },
                        Opened::Pending(promotion) => held.sets_aside(&after, hash, promotion),
                        Opened::Gap => {
                            &&& held.entries()[hash@].place is Disk
                            &&& held.has_no_room(after.passed_over(), Some(hash))
                            &&& held.lets_go(&after, hash)
                        },
                        Opened::Demote(demotion) => {
                            &&& held.entries()[hash@].place is Disk
                            &&& held.has_to_demote(&after, Some(hash), demotion)
                        },
                    }
                };
            assert(before.holds(&held, hash));
            assert(held.entries().dom() =~= before.entries().dom());
            assert(after.entries().dom() =~= trace[0].entries().dom());
        }
    }

    /// A fetch hands out what is resident. Where there is memory for those of
    /// the leading run that are on disk, all of the run comes back, nothing
    /// else does, and nothing has to be demoted or given up first: what is in
    /// memory comes back with its bytes, what is on disk to be read.
    pub proof fn lemma_resident_run_is_fetched(
        &self,
        after: &Self,
        hashes: Seq<BlockHash>,
        run: FetchRun,
        step: FetchStep,
        matched: nat,
    )
        requires
            run.parts().len() == 0,
            !run.is_waiting(),
            self.fetches(after, hashes, run, step),
            crate::index::is_resident_run(self.entries(), hashes, matched),
            self.free_slots() >= to_read(self.entries(), hashes, matched),
            forall|i: int|
                0 <= i < matched ==> self.entries()[(#[trigger] hashes[i])@].pins + matched
                    <= u64::MAX,
        ensures
            step matches FetchStep::Done(parts) && parts@.len() == matched && forall|i: int|
                0 <= i < matched ==> match #[trigger] parts@[i] {
                    FetchPart::Ready(block) => {
                        &&& self.entries()[hashes[i]@].place is Ram
                        &&& block.name() == hashes[i]@
                        &&& block.payload() == self.contents(hashes[i]@)
                    },
                    FetchPart::Pending(promotion) => {
                        &&& self.entries()[hashes[i]@].place == Place::Disk(promotion.source())
                        &&& promotion.name() == hashes[i]@
                    },
                },
            after.entries().dom() == self.entries().dom(),
            after.free_slots() + to_read(self.entries(), hashes, matched) == self.free_slots(),
    {
        let (trace, opened) = choose|trace: Seq<Self>, opened: Seq<Opened>|
            {
                &&& #[trigger] self.opens_run(hashes, 0, false, trace, opened)
                &&& match step {
                    FetchStep::Done(parts) => {
                        &&& super::is_part_run(opened, parts@, 0, parts@.len() as int)
                        &&& if opened.len() == parts@.len() {
                            parts@.len() == hashes.len()
                        } else {
                            opened.len() == parts@.len() + 1 && opened.last() is Gap
                        }
                        &&& trace.last().counts_lookup(after, hashes.len(), parts@.len())
                    },
                    FetchStep::Demote(demotion, next) => {
                        let got = next.parts().len() as int;
                        &&& super::is_part_run(opened, next.parts(), 0, got)
                        &&& opened.len() == got + 1
                        &&& opened.last() == Opened::Demote(demotion)
                        &&& trace.last() == *after
                    },
                }
            };
        let count = opened.len();
        let k = if count < matched {
            count
        } else {
            matched
        };
        Self::lemma_open_run(trace, opened, hashes, matched, k);
        if count > 0 {
            assert(opened.last() == opened[count - 1]);
        }
        if count > matched {
            // The run is over, so the next block is missing.
            reveal(KvStore::is_opening);
            reveal(KvStore::opens);
            assert(trace[matched as int].opens(
                &trace[matched as int + 1],
                hashes[matched as int],
                false,
                opened[matched as int],
            ));
            assert(opened[matched as int] is Gap);
        }
        match step {
            FetchStep::Done(parts) => {
                assert(count <= matched || count == matched + 1);
                assert forall|i: int| 0 <= i < matched implies match #[trigger] parts@[i] {
                    FetchPart::Ready(block) => {
                        &&& self.entries()[hashes[i]@].place is Ram
                        &&& block.name() == hashes[i]@
                        &&& block.payload() == self.contents(hashes[i]@)
                    },
                    FetchPart::Pending(promotion) => {
                        &&& self.entries()[hashes[i]@].place == Place::Disk(promotion.source())
                        &&& promotion.name() == hashes[i]@
                    },
                } by {
                    assert(i < count);
                    assert(opened[i] is Ready || opened[i] is Pending);
                }
            },
            FetchStep::Demote(..) => {
                assert(opened[count - 1] is Demote);
                assert(false);
            },
        }
    }

    /// The first `k` blocks of a run that lies in memory are held open.
    proof fn lemma_reach_run(
        trace: Seq<Self>,
        opened: Seq<Opened>,
        hashes: Seq<BlockHash>,
        matched: nat,
        k: nat,
    )
        requires
            Self::is_reaching(trace, opened, hashes, 0),
            trace.len() == opened.len() + 1,
            crate::index::is_resident_run(trace[0].entries(), hashes, matched),
            forall|i: int|
                0 <= i < matched ==> {
                    &&& trace[0].entries()[(#[trigger] hashes[i])@].place is Ram
                    &&& trace[0].entries()[hashes[i]@].pins + matched <= u64::MAX
                },
            k <= matched,
            k <= opened.len(),
        ensures
            trace[k as int].entries().dom() == trace[0].entries().dom(),
            trace[k as int].free_slots() == trace[0].free_slots(),
            forall|name: u128| #[trigger]
                trace[0].entries().dom().contains(name) ==> {
                    &&& trace[k as int].entries()[name].place == trace[0].entries()[name].place
                    &&& trace[k as int].entries()[name].pins <= trace[0].entries()[name].pins + k
                    &&& trace[k as int].contents(name) == trace[0].contents(name)
                },
            forall|j: int|
                0 <= j < k ==> (#[trigger] opened[j] matches Opened::Ready(block) && block.name()
                    == hashes[j]@ && block.payload() == trace[0].contents(hashes[j]@)),
        decreases k,
    {
        if k > 0 {
            let i = k - 1;
            Self::lemma_reach_run(trace, opened, hashes, matched, i as nat);
            reveal(KvStore::is_reaching);
            reveal(KvStore::reaches);
            let (before, after, hash) = (trace[i], trace[k as int], hashes[i]);
            assert(trace[0].entries().dom().contains(hash@));
            assert(before.reaches(&after, hash, opened[i]));
            assert(before.holds(&after, hash));
            assert(after.entries().dom() =~= trace[0].entries().dom());
        }
    }

    /// Holding a run open hands out what is in memory. Where the whole leading
    /// run is in memory it comes back at once, all of it and nothing else,
    /// with its bytes.
    pub proof fn lemma_run_in_memory_is_pinned(
        &self,
        after: &Self,
        hashes: Seq<BlockHash>,
        run: PinRun,
        step: PinStep,
        matched: nat,
    )
        requires
            run.blocks().len() == 0,
            run.reading() is None,
            self.pins_run(after, hashes, run, step),
            crate::index::is_resident_run(self.entries(), hashes, matched),
            forall|i: int|
                0 <= i < matched ==> {
                    &&& self.entries()[(#[trigger] hashes[i])@].place is Ram
                    &&& self.entries()[hashes[i]@].pins + matched <= u64::MAX
                },
        ensures
            step matches PinStep::Done(blocks) && blocks@.len() == matched && forall|i: int|
                0 <= i < matched ==> {
                    &&& (#[trigger] blocks@[i]).name() == hashes[i]@
                    &&& blocks@[i].payload() == self.contents(hashes[i]@)
                },
            after.entries().dom() == self.entries().dom(),
            after.free_slots() == self.free_slots(),
    {
        let (started, trace, opened) = choose|
            started: Self,
            trace: Seq<Self>,
            opened: Seq<Opened>,
        |
            {
                &&& self.finishes_read(&started, run)
                &&& #[trigger] started.reaches_run(hashes, 0, trace, opened)
                &&& match step {
                    PinStep::Done(blocks) => {
                        let got = blocks@.len() as int;
                        &&& super::is_ready_part_run(opened, blocks@, 0, got)
                        &&& if opened.len() == got {
                            blocks@.len() == hashes.len()
                        } else {
                            opened.len() == got + 1 && opened.last() is Gap
                        }
                        &&& trace.last().counts_lookup(after, hashes.len(), blocks@.len())
                    },
                    PinStep::Demote(demotion, next) => {
                        let got = next.blocks().len() as int;
                        &&& super::is_ready_part_run(opened, next.blocks(), 0, got)
                        &&& opened.len() == got + 1
                        &&& opened.last() == Opened::Demote(demotion)
                        &&& trace.last() == *after
                    },
                    PinStep::Read(next) => {
                        let got = next.blocks().len() as int;
                        &&& super::is_ready_part_run(opened, next.blocks(), 0, got)
                        &&& opened.len() == got + 1
                        &&& next.reading() matches Some(promotion) && opened.last()
                            == Opened::Pending(promotion)
                        &&& trace.last() == *after
                    },
                }
            };
        let count = opened.len();
        let k = if count < matched {
            count
        } else {
            matched
        };
        Self::lemma_reach_run(trace, opened, hashes, matched, k);
        if count > 0 {
            assert(opened.last() == opened[count - 1]);
        }
        if count > matched {
            // The run is over, so the next block is missing.
            reveal(KvStore::is_reaching);
            reveal(KvStore::reaches);
            assert(trace[matched as int].reaches(
                &trace[matched as int + 1],
                hashes[matched as int],
                opened[matched as int],
            ));
            assert(opened[matched as int] is Gap);
        }
        match step {
            PinStep::Done(blocks) => {
                assert(count <= matched || count == matched + 1);
                assert forall|i: int| 0 <= i < matched implies {
                    &&& (#[trigger] blocks@[i]).name() == hashes[i]@
                    &&& blocks@[i].payload() == self.contents(hashes[i]@)
                } by {
                    assert(i < count);
                    assert(opened[i] == Opened::Ready(blocks@[i]));
                }
            },
            PinStep::Demote(..) => {
                assert(opened[count - 1] is Demote);
                assert(false);
            },
            PinStep::Read(_) => {
                assert(opened[count - 1] is Pending);
                assert(false);
            },
        }
    }

    /// A fetch leaves nothing behind. Once a fetch has been begun, finished,
    /// and its blocks let go, every block has the readers that it had and the
    /// slots held in reserve are those that were.
    pub proof fn lemma_fetch_leaves_no_trace(
        &self,
        begun: &Self,
        parts: Seq<FetchPart>,
        finished: &Self,
        blocks: Seq<PinnedBlock>,
        released: &Self,
        name: u128,
    )
        requires
            begun.pins_of(name) == self.pins_of(name) + super::occurrences(
                super::part_names(parts),
                name,
            ),
            begun.reserved().difference(super::part_slots(parts)) == self.reserved(),
            finished.pins_of(name) + super::occurrences(super::part_names(parts), name)
                == begun.pins_of(name) + super::occurrences(super::pinned_names(blocks), name),
            finished.reserved() == begun.reserved().difference(super::part_slots(parts)),
            released.pins_of(name) == (if finished.pins_of(name) > super::occurrences(
                super::pinned_names(blocks),
                name,
            ) {
                (finished.pins_of(name) - super::occurrences(super::pinned_names(blocks), name))
                    as nat
            } else {
                0
            }),
            released.reserved() == finished.reserved(),
        ensures
            released.pins_of(name) == self.pins_of(name),
            released.reserved() == self.reserved(),
    {
    }

    /// A disk that gives back what was written to it changes no block: if what
    /// a fetch read first of each block is what the block held, every block
    /// holds after the fetch what it held before.
    pub proof fn lemma_honest_reads_change_nothing(
        &self,
        after: &Self,
        parts: Seq<FetchPart>,
        count: nat,
        name: u128,
    )
        requires
            forall|i: int, promotion: Promotion| #[trigger]
                super::is_first_read(parts, count, i, promotion) ==> promotion.staged()
                    == self.contents(promotion.name()),
            ({
                ||| after.contents(name) == self.contents(name)
                ||| exists|i: int, promotion: Promotion| #[trigger]
                    super::is_first_read(parts, count, i, promotion) && promotion.name() == name
                        && self.entries()[name].place is Disk && after.contents(name)
                        == promotion.staged()
            }),
        ensures
            after.contents(name) == self.contents(name),
    {
    }

    /// A round of writeback leaves nothing behind but copies. Once it has
    /// been begun and finished, the slots on disk held in reserve are those
    /// that were, and every block picked has no reader again.
    pub proof fn lemma_writeback_leaves_no_trace(
        &self,
        begun: &Self,
        finished: &Self,
        jobs: Seq<Writeback>,
    )
        requires
            forall|i: int|
                0 <= i < jobs.len() ==> {
                    let job = #[trigger] jobs[i];
                    &&& !self.reserved_on_disk().contains(job.target().number)
                    &&& begun.entries()[job.name()].pins == 1
                    &&& finished.entries()[job.name()].pins == begun.entries()[job.name()].pins - 1
                },
            begun.reserved_on_disk() == self.reserved_on_disk().union(super::job_slots(jobs)),
            finished.reserved_on_disk() == begun.reserved_on_disk().difference(
                super::job_slots(jobs),
            ),
        ensures
            finished.reserved_on_disk() == self.reserved_on_disk(),
            forall|i: int|
                0 <= i < jobs.len() ==> finished.entries()[(#[trigger] jobs[i]).name()].pins == 0,
    {
        lemma_job_slots(jobs);
        assert forall|slot: u32| #[trigger]
            super::job_slots(jobs).contains(slot) implies !self.reserved_on_disk().contains(
            slot,
        ) by {
            let i = choose|i: int|
                0 <= i < jobs.len() && (#[trigger] jobs[i]).target().number == slot;
            assert(!self.reserved_on_disk().contains(jobs[i].target().number));
        }
        assert(finished.reserved_on_disk() =~= self.reserved_on_disk());
    }

    /// What was admitted is found. With memory for all of it, admitting the
    /// blocks of a sequence makes a later lookup of that sequence hit every
    /// one of them.
    pub proof fn lemma_admitted_is_found(
        &self,
        after: &Self,
        tokens: Seq<TokenId>,
        blocks: Seq<&[u8]>,
        run: ChainRun,
        step: ChainStep,
        hashes: Seq<BlockHash>,
        matched: nat,
    )
        requires
            run.next() == 0,
            self.free_slots() >= blocks.len(),
            self.admits_chain(
                after,
                None,
                super::sequence_links(
                    self.root(),
                    self.shape().tokens_per_block as nat,
                    tokens,
                    blocks.len(),
                ),
                blocks,
                run,
                step,
            ),
            forall|i: int|
                0 <= i < hashes.len() ==> (#[trigger] hashes[i])@ == crate::block::chain_name(
                    self.root(),
                    self.shape().tokens_per_block as nat,
                    tokens,
                    i as nat,
                ),
            blocks.len() <= hashes.len(),
            crate::index::is_resident_run(after.entries(), hashes, matched),
        ensures
            matched >= blocks.len(),
            step matches ChainStep::Done(report) && report.dropped == 0,
    {
        let links = super::sequence_links(
            self.root(),
            self.shape().tokens_per_block as nat,
            tokens,
            blocks.len(),
        );
        if matched < blocks.len() {
            assert(links[matched as int].0@ == hashes[matched as int]@);
            assert(after.entries().dom().contains(links[matched as int].0@));
        }
    }

    /// Sharing. If the first `count` blocks of one sequence are resident, a
    /// lookup of any sequence that starts with the same tokens hits at least
    /// those.
    pub proof fn lemma_shared_prefix_is_found(
        &self,
        a: Seq<TokenId>,
        b: Seq<TokenId>,
        count: nat,
        hashes: Seq<BlockHash>,
        matched: nat,
    )
        requires
            count * self.shape().tokens_per_block <= a.len(),
            count * self.shape().tokens_per_block <= b.len(),
            a.take((count * self.shape().tokens_per_block) as int) == b.take(
                (count * self.shape().tokens_per_block) as int,
            ),
            forall|i: nat|
                i < count ==> self.entries().dom().contains(
                    #[trigger] crate::block::chain_name(
                        self.root(),
                        self.shape().tokens_per_block as nat,
                        a,
                        i,
                    ),
                ),
            count <= hashes.len(),
            forall|i: int|
                0 <= i < hashes.len() ==> (#[trigger] hashes[i])@ == crate::block::chain_name(
                    self.root(),
                    self.shape().tokens_per_block as nat,
                    b,
                    i as nat,
                ),
            crate::index::is_resident_run(self.entries(), hashes, matched),
        ensures
            matched >= count,
    {
        let width = self.shape().tokens_per_block as nat;
        crate::naming::lemma_shared_prefix_shares_names(self.root(), width, a, b, count);
        if matched < count {
            assert(hashes[matched as int]@ == crate::block::chain_name(
                self.root(),
                width,
                b,
                matched,
            ));
            assert(crate::block::chain_name(self.root(), width, a, matched)
                == crate::block::chain_name(self.root(), width, b, matched));
        }
    }
}

proof fn lemma_job_slots(jobs: Seq<Writeback>)
    ensures
        forall|slot: u32| #[trigger]
            super::job_slots(jobs).contains(slot) ==> exists|i: int|
                0 <= i < jobs.len() && (#[trigger] jobs[i]).target().number == slot,
    decreases jobs.len(),
{
    if jobs.len() > 0 {
        let rest = jobs.drop_last();
        lemma_job_slots(rest);
        assert forall|slot: u32| #[trigger] super::job_slots(jobs).contains(slot) implies exists|
            i: int,
        |
            0 <= i < jobs.len() && (#[trigger] jobs[i]).target().number == slot by {
            if super::job_slots(rest).contains(slot) {
                let i = choose|i: int|
                    0 <= i < rest.len() && (#[trigger] rest[i]).target().number == slot;
                assert(jobs[i] == rest[i]);
            } else {
                assert(jobs[jobs.len() - 1].target().number == slot);
            }
        }
    }
}

} // verus!
