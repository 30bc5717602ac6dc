//! What each operation on a store does, told in terms of what a caller hands in
//! and sees afterwards.

use vstd::prelude::*;

use super::{
    Admit, AdmitReport, AdmitStep, ChainRun, ChainStep, Demotion, FetchPart, FetchRun, FetchStep,
    KvStore, Lookup, PinRun, PinStep, Promotion, Stats, Writeback,
};
use crate::block::{BlockHash, BlockLayout, PrefixHasher, TokenId};
use crate::evict::Costs;
use crate::index::{Entry, Place};
use crate::slab::{PinnedBlock, Slab, SlabError};
use crate::tier::DiskStats;

verus! {

/// When a block is taken in. It is found if it is there, an orphan if what it
/// hangs below is not, and otherwise taken in wherever a slot is free, or a
/// block in memory that is unread, unprotected and has nothing below it could
/// give way and there is no disk to ask first. Whatever is not taken in leaves
/// the entries as they were.
pub proof fn lemma_admission_is_decided<C: Costs>(
    earlier: &KvStore<C>,
    later: &KvStore<C>,
    hash: BlockHash,
    parent: Option<BlockHash>,
    depth_tokens: u32,
    data: &[u8],
    step: AdmitStep,
    spare: u128,
)
    requires
        earlier.wf(),
        later.wf(),
        earlier.admits(later, hash, parent, depth_tokens, data@, step),
    ensures
        ({
            let before = earlier.entries();
            let after = later.entries();
            let present = before.dom().contains(hash@);
            let orphan = parent matches Some(above) && !before.dom().contains(above@);
            let could_go = before.dom().contains(spare) && (before[spare].place matches Place::Ram {
                ..
            }) && before[spare].children == 0 && before[spare].pins == 0 && parent != Some(
                BlockHash { name: spare },
            ) && !earlier.withheld().contains(spare);
            &&& present <==> step == AdmitStep::Done(Admit::AlreadyPresent)
            &&& !present && orphan <==> step == AdmitStep::Done(Admit::OrphanParent)
            &&& !present && !orphan && earlier.free_slots() > 0 ==> step == AdmitStep::Done(
                Admit::Inserted,
            )
            &&& !present && !orphan && !earlier.tiered() && could_go ==> step
                == AdmitStep::Done(Admit::Inserted)
            &&& step == AdmitStep::Done(Admit::OutOfSpace) ==> earlier.free_slots() == 0
                && !could_go
            &&& step is Demote ==> earlier.tiered() && earlier.free_slots() == 0
            &&& !(step is Demote) && step != AdmitStep::Done(Admit::Inserted) ==> after == before
        }),
{
    let before = earlier.entries();
    if step == AdmitStep::Done(Admit::OutOfSpace) && super::is_idle(before, parent, spare) {
        assert(!super::is_due(
            before,
            earlier.withheld(),
            later.passed_over(),
            spare,
        ));
    }
}

/// A block that was taken in is what was handed in: it hangs below the parent
/// it was given, covers the depth it was given, and holds the bytes it was
/// given, in memory and nowhere else. Nobody reads it and nothing hangs below
/// it, no block was used later, and it is worth what the costs say at the clock
/// as it stands now.
pub proof fn lemma_admitted_is_what_was_handed_in<C: Costs>(
    earlier: &KvStore<C>,
    later: &KvStore<C>,
    hash: BlockHash,
    parent: Option<BlockHash>,
    depth_tokens: u32,
    data: &[u8],
)
    requires
        earlier.wf(),
        later.wf(),
        earlier.admits(later, hash, parent, depth_tokens, data@, AdmitStep::Done(Admit::Inserted)),
    ensures
        ({
            let entry = later.entries()[hash@];
            &&& !earlier.entries().dom().contains(hash@)
            &&& later.entries().dom().contains(hash@)
            &&& parent matches Some(above) ==> earlier.entries().dom().contains(above@)
            &&& entry.parent == parent
            &&& entry.depth_tokens == depth_tokens
            &&& later.contents(hash@) == data@
            &&& entry.place matches Place::Ram { backing: None, .. }
            &&& entry.pins == 0
            &&& entry.children == 0 || parent == Some(hash)
            &&& entry.last_access == later.clock()
            &&& entry.priority_access == later.clock()
            &&& earlier.clock() < u64::MAX ==> later.clock() == earlier.clock() + 1
            &&& call_ensures(
                C::priority_for,
                (&earlier.pricing(), later.ram_inflation(), depth_tokens),
                entry.priority,
            )
        }),
{
    let after = later.entries();
    let (between, passed) = choose|between: Map<u128, Entry>, passed: Set<u128>| #[trigger]
        earlier.made_way(later, between, passed, parent) && super::landed(
            between,
            after,
            hash@,
            parent,
            depth_tokens,
            later.clock(),
        ) && later.passed_over().subset_of(passed);
    assert(super::landed(between, after, hash@, parent, depth_tokens, later.clock()));
}

/// With a slot to spare nothing else happens: no block goes, and none changes
/// but the parent, which has one child more.
pub proof fn lemma_room_costs_nobody<C: Costs>(
    earlier: &KvStore<C>,
    later: &KvStore<C>,
    hash: BlockHash,
    parent: Option<BlockHash>,
    depth_tokens: u32,
    data: &[u8],
    other: u128,
)
    requires
        earlier.wf(),
        later.wf(),
        earlier.admits(later, hash, parent, depth_tokens, data@, AdmitStep::Done(Admit::Inserted)),
        earlier.free_slots() > 0,
        other != hash@,
    ensures
        later.entries().dom().contains(other) <==> earlier.entries().dom().contains(other),
        later.free_slots() == earlier.free_slots() - 1,
        later.ram_inflation() == earlier.ram_inflation(),
        earlier.entries().dom().contains(other) ==> {
            let was = earlier.entries()[other];
            &&& later.contents(other) == earlier.contents(other)
            &&& later.entries()[other] == (Entry {
                children: if parent == Some(BlockHash { name: other }) {
                    (was.children + 1) as usize
                } else {
                    was.children
                },
                ..was
            })
        },
{
    let after = later.entries();
    let (between, passed) = choose|between: Map<u128, Entry>, passed: Set<u128>| #[trigger]
        earlier.made_way(later, between, passed, parent) && super::landed(
            between,
            after,
            hash@,
            parent,
            depth_tokens,
            later.clock(),
        ) && later.passed_over().subset_of(passed);
    assert(super::landed(between, after, hash@, parent, depth_tokens, later.clock()));
    if earlier.entries().dom().contains(other) {
        assert(later.entries().dom().contains(other));
        assert(earlier.carries(later, other));
    }
}

/// `name` was in memory and is so no longer.
pub open spec fn left_memory(
    before: Map<u128, Entry>,
    after: Map<u128, Entry>,
    name: u128,
) -> bool {
    &&& before.dom().contains(name)
    &&& before[name].place matches Place::Ram { .. }
    &&& after.dom().contains(name) ==> after[name].place matches Place::Disk(_)
}

/// Where there was no slot to spare and a block was taken in all the same, some
/// other block has left memory.
pub proof fn lemma_one_block_gives_way<C: Costs>(
    earlier: &KvStore<C>,
    later: &KvStore<C>,
    hash: BlockHash,
    parent: Option<BlockHash>,
    depth_tokens: u32,
    data: &[u8],
)
    requires
        earlier.wf(),
        later.wf(),
        earlier.admits(later, hash, parent, depth_tokens, data@, AdmitStep::Done(Admit::Inserted)),
        earlier.free_slots() == 0,
    ensures
        exists|gone: u128| #[trigger]
            left_memory(earlier.entries(), later.entries(), gone),
{
    let before = earlier.entries();
    let after = later.entries();
    let (between, passed) = choose|between: Map<u128, Entry>, passed: Set<u128>| #[trigger]
        earlier.made_way(later, between, passed, parent) && super::landed(
            between,
            after,
            hash@,
            parent,
            depth_tokens,
            later.clock(),
        ) && later.passed_over().subset_of(passed);
    assert(super::landed(between, after, hash@, parent, depth_tokens, later.clock()));
    let gone = choose|gone: u128| #[trigger]
        earlier.gives_way(between, passed, parent, gone);
    assert(earlier.gives_way(between, passed, parent, gone));
    assert(super::is_next_out(before, earlier.withheld(), passed, parent, gone));
    if before[gone].place.copy() is None {
        earlier.lemma_leaf_is_not_its_parent(gone);
    }
    assert(left_memory(before, after, gone));
}

/// The lowest gives way. Of a block that left memory for another, nobody read
/// it, it was not the new block's parent, and every other such block that
/// nothing hangs below and that is not withheld had a higher priority, or the
/// same as of a later use, or failing that a higher name. Where it had a copy on
/// disk it lives on there, and it was dropped only if nothing hung below it and
/// it had none. The clock has risen to its priority.
pub proof fn lemma_lowest_gives_way<C: Costs>(
    earlier: &KvStore<C>,
    later: &KvStore<C>,
    hash: BlockHash,
    parent: Option<BlockHash>,
    depth_tokens: u32,
    data: &[u8],
    gone: u128,
    other: u128,
)
    requires
        earlier.wf(),
        later.wf(),
        earlier.admits(later, hash, parent, depth_tokens, data@, AdmitStep::Done(Admit::Inserted)),
        left_memory(earlier.entries(), later.entries(), gone),
    ensures
        earlier.free_slots() == 0,
        ({
            let before = earlier.entries();
            let after = later.entries();
            let was = before[gone];
            let rival = before[other];
            &&& before.dom().contains(gone)
            &&& gone != hash@
            &&& was.pins == 0
            &&& parent != Some(BlockHash { name: gone })
            &&& match was.place {
                Place::Disk(_) => false,
                Place::Ram { backing: Some(copy), .. } => {
                    &&& after.dom().contains(gone)
                    &&& after[gone].place == Place::Disk(copy)
                    &&& after[gone].parent == was.parent
                    &&& after[gone].depth_tokens == was.depth_tokens
                    &&& after[gone].last_access == was.last_access
                    &&& after[gone].priority_access == was.last_access
                    &&& later.contents(gone) == earlier.contents(gone)
                    &&& call_ensures(
                        C::priority_for,
                        (&earlier.pricing(), earlier.disk_inflation(), was.depth_tokens),
                        after[gone].priority,
                    )
                },
                Place::Ram { backing: None, .. } => {
                    &&& was.children == 0
                    &&& !after.dom().contains(gone)
                },
            }
            &&& later.free_slots() == 0
            &&& later.ram_inflation() >= was.priority
            &&& later.ram_inflation() == was.priority || later.ram_inflation()
                == earlier.ram_inflation()
            &&& later.ram_inflation() >= earlier.ram_inflation()
            &&& later.disk_inflation() == earlier.disk_inflation()
            // The others are all still here, as they were.
            &&& other != gone && other != hash@ ==> {
                &&& after.dom().contains(other) <==> before.dom().contains(other)
                &&& before.dom().contains(other) ==> after[other].place == rival.place
                    && after[other].parent == rival.parent && after[other].depth_tokens
                    == rival.depth_tokens && after[other].pins == rival.pins
                    && after[other].last_access == rival.last_access && later.contents(
                    other,
                ) == earlier.contents(other)
            }
            &&& before.dom().contains(other) && other != gone && (rival.place matches Place::Ram {
                ..
            }) && rival.children == 0 && rival.pins == 0 && parent != Some(
                BlockHash { name: other },
            ) && !earlier.withheld().contains(other) ==> {
                ||| rival.priority > was.priority
                ||| rival.priority == was.priority && rival.priority_access > was.priority_access
                ||| rival.priority == was.priority && rival.priority_access == was.priority_access
                    && other > gone
            }
        }),
{
    let before = earlier.entries();
    let after = later.entries();
    let (between, passed) = choose|between: Map<u128, Entry>, passed: Set<u128>| #[trigger]
        earlier.made_way(later, between, passed, parent) && super::landed(
            between,
            after,
            hash@,
            parent,
            depth_tokens,
            later.clock(),
        ) && later.passed_over().subset_of(passed);
    assert(super::landed(between, after, hash@, parent, depth_tokens, later.clock()));
    let victim = choose|gone: u128|
        {
            let clean = before[gone].place.copy() is Some;
            &&& #[trigger] earlier.gives_way(between, passed, parent, gone)
            &&& if clean {
                later.is_lean(gone)
            } else {
                later.leaves_lean(before, gone)
            }
            &&& later.ram_inflation() == super::higher(
                earlier.ram_inflation(),
                before[gone].priority,
            )
            &&& later.counters().evicted_blocks == crate::tier::raised(
                earlier.counters().evicted_blocks,
                if clean {
                    0
                } else {
                    1
                },
            )
            &&& later.counters().demoted_blocks == crate::tier::raised(
                earlier.counters().demoted_blocks,
                if clean {
                    1
                } else {
                    0
                },
            )
        };
    assert(earlier.free_slots() == 0);
    assert(earlier.gives_way(between, passed, parent, victim));
    assert(super::is_next_out(before, earlier.withheld(), passed, parent, victim));
    assert(super::gave_way(before, between, victim));
    if before[victim].place.copy() is None {
        earlier.lemma_leaf_is_not_its_parent(victim);
    }
    assert(victim == gone);
    if super::is_idle(before, parent, other) {
        assert(super::is_due(before, earlier.withheld(), passed, other) ==> !crate::evict::standing(
            other,
            before[other],
        ).before(crate::evict::standing(gone, before[gone])));
    }
    if before.dom().contains(other) && other != gone && other != hash@ {
        assert(after.dom().contains(other)) by {
            assert(between.dom().contains(other));
        }
        assert(earlier.carries(later, other));
    }
    if before.dom().contains(gone) && before[gone].place.copy() is Some {
        assert(after.dom().contains(gone));
        assert(earlier.carries(later, gone));
    }
}

impl<C: Costs> KvStore<C> {
    /// No block hangs below itself.
    proof fn lemma_leaf_is_not_its_parent(&self, name: u128)
        requires
            self.wf(),
            self.entries().dom().contains(name),
        ensures
            self.entries()[name].parent matches Some(parent) ==> parent@ != name
                && self.entries().dom().contains(parent@),
    {
        self.index.lemma_parents_are_no_leaves(name);
    }
}

/// Nothing is dropped that the disk should have. A block that a new one drove
/// out altogether had no copy on disk, and there was no disk, or the costs did
/// not call the block worth a slot there, or the disk was full and every block
/// on it was read, had something below it, was the new block's parent or was
/// withheld.
pub proof fn lemma_dropped_for_a_reason<C: Costs>(
    earlier: &KvStore<C>,
    later: &KvStore<C>,
    hash: BlockHash,
    parent: Option<BlockHash>,
    depth_tokens: u32,
    data: &[u8],
    gone: u128,
    other: u128,
)
    requires
        earlier.wf(),
        later.wf(),
        earlier.admits(later, hash, parent, depth_tokens, data@, AdmitStep::Done(Admit::Inserted)),
        earlier.entries().dom().contains(gone),
        !later.entries().dom().contains(gone),
    ensures
        earlier.free_slots() == 0,
        earlier.entries()[gone].place matches Place::Ram { backing: None, .. },
        earlier.entries()[gone].children == 0,
        ({
            let rival = earlier.entries()[other];
            ||| !earlier.tiered()
            ||| call_ensures(
                C::worth_demoting,
                (&earlier.pricing(), earlier.entries()[gone].depth_tokens),
                false,
            )
            ||| earlier.free_disk_slots() == 0 && !(earlier.entries().dom().contains(other) && (
            rival.place matches Place::Disk(_)) && rival.children == 0 && rival.pins == 0 && parent
                != Some(BlockHash { name: other }) && !earlier.withheld().contains(other))
        }),
        // A block that has lost the last one below it is worth what the costs
        // say at the clock of the tier it lies in.
        earlier.entries()[gone].parent matches Some(above) ==> parent != Some(above) ==> {
            let was = earlier.entries()[above@];
            let now = later.entries()[above@];
            &&& earlier.entries().dom().contains(above@)
            &&& later.entries().dom().contains(above@)
            &&& now.children == was.children - 1
            &&& was.children > 1 ==> now.priority == was.priority && now.priority_access
                == was.priority_access
            &&& was.children == 1 ==> {
                &&& now.priority_access == was.last_access
                &&& call_ensures(
                    C::priority_for,
                    (
                        &earlier.pricing(),
                        match was.place {
                            Place::Ram { .. } => later.ram_inflation(),
                            Place::Disk(_) => earlier.disk_inflation(),
                        },
                        was.depth_tokens,
                    ),
                    now.priority,
                )
            }
        },
{
    let before = earlier.entries();
    let after = later.entries();
    let (between, passed) = choose|between: Map<u128, Entry>, passed: Set<u128>| #[trigger]
        earlier.made_way(later, between, passed, parent) && super::landed(
            between,
            after,
            hash@,
            parent,
            depth_tokens,
            later.clock(),
        ) && later.passed_over().subset_of(passed);
    assert(super::landed(between, after, hash@, parent, depth_tokens, later.clock()));
    assert(earlier.free_slots() == 0);
    let victim = choose|victim: u128|
        {
            let clean = before[victim].place.copy() is Some;
            &&& #[trigger] earlier.gives_way(between, passed, parent, victim)
            &&& if clean {
                later.is_lean(victim)
            } else {
                later.leaves_lean(before, victim)
            }
            &&& later.ram_inflation() == super::higher(
                earlier.ram_inflation(),
                before[victim].priority,
            )
            &&& later.counters().evicted_blocks == crate::tier::raised(
                earlier.counters().evicted_blocks,
                if clean {
                    0
                } else {
                    1
                },
            )
            &&& later.counters().demoted_blocks == crate::tier::raised(
                earlier.counters().demoted_blocks,
                if clean {
                    1
                } else {
                    0
                },
            )
        };
    assert(earlier.gives_way(between, passed, parent, victim));
    assert(super::is_next_out(before, earlier.withheld(), passed, parent, victim));
    assert(super::gave_way(before, between, victim));
    if before[victim].place.copy() is None {
        earlier.lemma_leaf_is_not_its_parent(victim);
    }
    assert(victim == gone);
    earlier.lemma_parents_have_children(gone);
    assert(earlier.will_not_demote(parent, gone));
    if super::is_spare_on_disk(before, parent, other) && earlier.tiered() && !crate::evict::judged(
        earlier.pricing(),
        before[gone].depth_tokens,
        false,
    ) {
        assert(earlier.withheld().contains(other));
    }
}

/// What lies on disk as well is always there to give way, whatever hangs below
/// it: unless it is read, is the new block's parent, is withheld or has been
/// passed over, no block is turned away for lack of memory, and none that is
/// dearer gives way in its place. The same holds of a block that the costs do
/// not refuse a slot on disk while one is free there.
pub proof fn lemma_copies_give_way_first<C: Costs>(
    earlier: &KvStore<C>,
    later: &KvStore<C>,
    hash: BlockHash,
    parent: Option<BlockHash>,
    depth_tokens: u32,
    data: &[u8],
    step: AdmitStep,
    other: u128,
    gone: u128,
)
    requires
        earlier.wf(),
        later.wf(),
        earlier.admits(later, hash, parent, depth_tokens, data@, step),
        earlier.entries().dom().contains(other),
        earlier.entries()[other].pins == 0,
        parent != Some(BlockHash { name: other }),
        !earlier.withheld().contains(other),
        !earlier.passed_over().contains(other),
        match earlier.entries()[other].place {
            Place::Ram { backing: Some(_), .. } => true,
            Place::Ram { backing: None, .. } => earlier.tiered() && earlier.free_disk_slots() > 0
                && !call_ensures(
                C::worth_demoting,
                (&earlier.pricing(), earlier.entries()[other].depth_tokens),
                false,
            ),
            Place::Disk(_) => false,
        },
    ensures
        step != AdmitStep::Done(Admit::OutOfSpace),
        step == AdmitStep::Done(Admit::Inserted) && left_memory(
            earlier.entries(),
            later.entries(),
            gone,
        ) && gone != other ==> {
            let was = earlier.entries()[gone];
            let rival = earlier.entries()[other];
            ||| rival.priority > was.priority
            ||| rival.priority == was.priority && rival.priority_access > was.priority_access
            ||| rival.priority == was.priority && rival.priority_access == was.priority_access
                && other > gone
        },
{
    let before = earlier.entries();
    let after = later.entries();
    assert(super::is_idle(before, parent, other));
    if step == AdmitStep::Done(Admit::OutOfSpace) {
        assert(!super::is_due(before, earlier.withheld(), later.passed_over(), other));
    }
    if step == AdmitStep::Done(Admit::Inserted) && left_memory(before, after, gone) {
        lemma_lowest_gives_way(earlier, later, hash, parent, depth_tokens, data, gone, other);
        let (between, passed) = choose|between: Map<u128, Entry>, passed: Set<u128>| #[trigger]
            earlier.made_way(later, between, passed, parent) && super::landed(
                between,
                after,
                hash@,
                parent,
                depth_tokens,
                later.clock(),
            ) && later.passed_over().subset_of(passed);
        assert(super::landed(between, after, hash@, parent, depth_tokens, later.clock()));
        let victim = choose|victim: u128| #[trigger]
            earlier.gives_way(between, passed, parent, victim);
        assert(earlier.gives_way(between, passed, parent, victim));
        assert(super::is_next_out(before, earlier.withheld(), passed, parent, victim));
        assert(super::gave_way(before, between, victim));
        if before[victim].place.copy() is None {
            earlier.lemma_leaf_is_not_its_parent(victim);
        }
        assert(victim == gone);
        assert(!passed.contains(other));
        assert(super::is_due(before, earlier.withheld(), passed, other));
    }
}

impl<C: Costs> KvStore<C> {
    /// What a block hangs below has it for a child.
    proof fn lemma_parents_have_children(&self, name: u128)
        requires
            self.wf(),
            self.entries().dom().contains(name),
        ensures
            self.entries()[name].parent matches Some(parent) ==> {
                &&& parent@ != name
                &&& self.entries().dom().contains(parent@)
                &&& self.entries()[parent@].children > 0
            },
    {
        self.index.lemma_parents_are_no_leaves(name);
    }
}

/// What was dropped and what was pushed out to its copy are counted apart.
pub proof fn lemma_what_gave_way_is_counted<C: Costs>(
    earlier: &KvStore<C>,
    later: &KvStore<C>,
    hash: BlockHash,
    parent: Option<BlockHash>,
    depth_tokens: u32,
    data: &[u8],
    step: AdmitStep,
)
    requires
        earlier.wf(),
        later.wf(),
        earlier.admits(later, hash, parent, depth_tokens, data@, step),
        earlier.counters().inserted_blocks < u64::MAX,
        earlier.counters().deduped_blocks < u64::MAX,
        earlier.counters().rejected_blocks < u64::MAX,
        earlier.counters().evicted_blocks < u64::MAX,
        earlier.counters().demoted_blocks < u64::MAX,
        earlier.counters().bytes_admitted + data@.len() <= u64::MAX,
    ensures
        ({
            let was = earlier.counters();
            let now = later.counters();
            let inserted: int = if step == AdmitStep::Done(Admit::Inserted) {
                1
            } else {
                0
            };
            &&& now.inserted_blocks == was.inserted_blocks + inserted
            &&& now.bytes_admitted == was.bytes_admitted + inserted * data@.len()
            &&& now.deduped_blocks == was.deduped_blocks + if step == AdmitStep::Done(
                Admit::AlreadyPresent,
            ) {
                1int
            } else {
                0
            }
            &&& now.rejected_blocks == was.rejected_blocks + if step == AdmitStep::Done(
                Admit::OutOfSpace,
            ) {
                1int
            } else {
                0
            }
            &&& now.lookups == was.lookups
            &&& now.queried_blocks == was.queried_blocks
            &&& now.hit_blocks == was.hit_blocks
            &&& now.promoted_blocks == was.promoted_blocks
            &&& now.written_back == was.written_back
            &&& now.blocking_demotions == was.blocking_demotions
            &&& step == AdmitStep::Done(Admit::Inserted) ==> now.evicted_blocks + now.demoted_blocks
                == was.evicted_blocks + was.demoted_blocks + if earlier.free_slots() > 0 {
                0int
            } else {
                1
            }
            &&& later.moved() == earlier.moved()
        }),
{
    if step == AdmitStep::Done(Admit::Inserted) {
        assert(1 * data@.len() == data@.len());
    } else {
        assert(0 * data@.len() == 0);
    }
}

/// A demotion is asked for where the block that would go lies in memory only,
/// is unread, is not the new block's parent, and the costs call it worth a slot
/// on disk. It holds the bytes of that block. No other such block that nothing
/// hangs below and that is not withheld would go before it. Where the disk was
/// full, the lowest block there that nothing hangs below was dropped for it.
pub proof fn lemma_demotion_is_worth_it<C: Costs>(
    earlier: &KvStore<C>,
    later: &KvStore<C>,
    hash: BlockHash,
    parent: Option<BlockHash>,
    depth_tokens: u32,
    data: &[u8],
    demotion: Demotion,
    other: u128,
)
    requires
        earlier.wf(),
        later.wf(),
        earlier.admits(later, hash, parent, depth_tokens, data@, AdmitStep::Demote(demotion)),
    ensures
        ({
            let before = earlier.entries();
            let after = later.entries();
            let was = before[demotion.name()];
            let rival = before[other];
            let cheaper = {
                ||| rival.priority < was.priority
                ||| rival.priority == was.priority && rival.priority_access < was.priority_access
                ||| rival.priority == was.priority && rival.priority_access == was.priority_access
                    && other < demotion.name()
            };
            &&& earlier.tiered()
            &&& before.dom().contains(demotion.name())
            &&& was.place matches Place::Ram { backing: None, .. }
            &&& was.pins == 0
            &&& parent != Some(BlockHash { name: demotion.name() })
            &&& call_ensures(
                C::worth_demoting,
                (&earlier.pricing(), was.depth_tokens),
                true,
            )
            &&& demotion.payload() == earlier.contents(demotion.name())
            &&& demotion.price() == was.priority
            &&& demotion.is_leaf() <==> was.children == 0
            &&& later.reserved_on_disk() == earlier.reserved_on_disk().insert(
                demotion.target().number,
            )
            &&& !earlier.reserved_on_disk().contains(demotion.target().number)
            &&& before.dom().contains(other) && (rival.place matches Place::Ram { .. })
                && rival.children == 0 && rival.pins == 0 && parent != Some(
                BlockHash { name: other },
            ) && !earlier.withheld().contains(other) ==> !cheaper
            &&& earlier.free_disk_slots() > 0 ==> after == before
        }),
{
    let before = earlier.entries();
    let name = demotion.name();
    let passed = choose|passed: Set<u128>| #[trigger]
        earlier.chooses(passed, parent, name) && later.passed_over().subset_of(
            if demotion.is_leaf() {
                passed
            } else {
                passed.insert(name)
            },
        );
    assert(super::is_next_out(before, earlier.withheld(), passed, parent, name));
    if super::is_idle(before, parent, other) {
        assert(super::is_due(before, earlier.withheld(), passed, other) ==> !crate::evict::standing(
            other,
            before[other],
        ).before(crate::evict::standing(name, before[name])));
    }
}

/// Where the disk was full, the lowest block there that nothing hangs below was
/// dropped to make a slot for the demotion, and the disk's clock has risen to
/// its priority.
pub proof fn lemma_lowest_leaves_the_disk<C: Costs>(
    earlier: &KvStore<C>,
    later: &KvStore<C>,
    hash: BlockHash,
    parent: Option<BlockHash>,
    depth_tokens: u32,
    data: &[u8],
    demotion: Demotion,
    gone: u128,
    other: u128,
)
    requires
        earlier.wf(),
        later.wf(),
        earlier.admits(later, hash, parent, depth_tokens, data@, AdmitStep::Demote(demotion)),
        earlier.entries().dom().contains(gone),
        !later.entries().dom().contains(gone),
    ensures
        earlier.free_disk_slots() == 0,
        ({
            let before = earlier.entries();
            let after = later.entries();
            let was = before[gone];
            let rival = before[other];
            &&& before.dom().contains(gone)
            &&& was.place matches Place::Disk(_)
            &&& was.children == 0
            &&& was.pins == 0
            &&& parent != Some(BlockHash { name: gone })
            &&& after.dom() == before.dom().remove(gone)
            &&& later.disk_inflation() >= was.priority
            &&& later.disk_inflation() == was.priority || later.disk_inflation()
                == earlier.disk_inflation()
            &&& later.disk_inflation() >= earlier.disk_inflation()
            &&& earlier.counters().evicted_blocks < u64::MAX ==> later.counters().evicted_blocks
                == earlier.counters().evicted_blocks + 1
            &&& before.dom().contains(other) && other != gone && (rival.place matches Place::Disk(
                _,
            )) && rival.children == 0 && rival.pins == 0 && parent != Some(
                BlockHash { name: other },
            ) && !earlier.withheld().contains(other) ==> {
                ||| rival.priority > was.priority
                ||| rival.priority == was.priority && rival.priority_access > was.priority_access
                ||| rival.priority == was.priority && rival.priority_access == was.priority_access
                    && other > gone
            }
        }),
{
    let before = earlier.entries();
    let after = later.entries();
    let victim = choose|gone: u128| #[trigger]
        super::is_next_off_disk(before, earlier.withheld(), parent, gone) && super::dropped(
            before,
            after,
            gone,
        ) && after.dom() == before.dom().remove(gone) && later.disk_inflation()
            == super::higher(earlier.disk_inflation(), before[gone].priority)
            && later.leaves_lean(before, gone) && super::leaves_worth(
            earlier.pricing(),
            earlier.ram_inflation(),
            later.disk_inflation(),
            before,
            after,
            gone,
        );
    assert(super::is_next_off_disk(before, earlier.withheld(), parent, victim));
    assert(victim == gone);
    if super::is_spare_on_disk(before, parent, other) && !earlier.withheld().contains(other) {
        assert(!crate::evict::standing(other, before[other]).before(
            crate::evict::standing(gone, before[gone]),
        ));
    }
}

/// A chain hangs together. A block that a chain brought in is one of the blocks
/// handed in; it hangs below the block just before it in the list, or below
/// `parent` if it is the first, and holds the bytes and the depth that came
/// with it. The block that it hangs below is resident.
pub proof fn lemma_chain_hangs_together<C: Costs>(
    store: &mut KvStore<C>,
    parent: Option<BlockHash>,
    names: &[(BlockHash, u32)],
    blocks: &[&[u8]],
    run: ChainRun,
    step: ChainStep,
    name: u128,
)
    requires
        call_ensures(KvStore::<C>::admit_chain, (store, parent, names, blocks, run), step),
        !old(store).entries().dom().contains(name),
        final(store).entries().dom().contains(name),
    ensures
        exists|i: int|
            {
                let entry = final(store).entries()[name];
                &&& run.next() <= i < names@.len()
                &&& (#[trigger] names@[i]).0@ == name
                &&& i == 0 ==> entry.parent == parent
                &&& i > 0 ==> entry.parent == Some(names@[i - 1].0)
                &&& i > 0 ==> final(store).entries().dom().contains(names@[i - 1].0@)
                &&& i == 0 ==> (parent matches Some(above) ==> final(
                    store).entries().dom().contains(above@))
                &&& entry.depth_tokens == names@[i].1
                &&& entry.pins == 0
                &&& final(store).contents(name) == blocks@[i]@
            },
{
    let i = choose|i: int|
        run.next() <= i < names@.len() && #[trigger] final(store).came_with(
            parent,
            names@,
            blocks@,
            i,
            name,
        );
    assert(final(store).came_with(parent, names@, blocks@, i, name));
    final(store).lemma_leaf_is_not_its_parent(name);
    assert(names@[i].0@ == name);
}

/// No block of a sequence is resident without the one before it. Where each
/// resident block of the list hung below the one before it, that is so after
/// the list has been admitted, whatever had to give way; and so the resident
/// blocks of the list are a leading run of it.
pub proof fn lemma_chains_have_no_gaps<C: Costs>(
    store: &mut KvStore<C>,
    parent: Option<BlockHash>,
    names: &[(BlockHash, u32)],
    blocks: &[&[u8]],
    run: ChainRun,
    step: ChainStep,
    i: int,
)
    requires
        call_ensures(KvStore::<C>::admit_chain, (store, parent, names, blocks, run), step),
        forall|k: int, l: int|
            0 <= k < names@.len() && 0 <= l < names@.len() && k != l ==> (#[trigger] names@[k]).0
                != (#[trigger] names@[l]).0,
        forall|k: int|
            1 <= k < names@.len() && old(store).entries().dom().contains((#[trigger] names@[k]).0@)
                ==> old(store).entries()[names@[k].0@].parent == Some(names@[k - 1].0),
        0 <= i < names@.len(),
        final(store).entries().dom().contains(names@[i].0@),
    ensures
        i > 0 ==> final(store).entries()[names@[i].0@].parent == Some(names@[i - 1].0),
        forall|k: int|
            0 <= k <= i ==> final(store).entries().dom().contains((#[trigger] names@[k]).0@),
    decreases i,
{
    if i > 0 {
        let name = names@[i].0@;
        if old(store).entries().dom().contains(name) && old(store).carries(final(store), name) {
            assert(old(store).entries()[names@[i].0@].parent == Some(names@[i - 1].0));
        } else {
            let k = choose|k: int|
                run.next() <= k < names@.len() && #[trigger] final(store).came_with(
                    parent,
                    names@,
                    blocks@,
                    k,
                    name,
                );
            assert(final(store).came_with(parent, names@, blocks@, k, name));
            assert(names@[k].0 == names@[i].0);
        }
        final(store).lemma_leaf_is_not_its_parent(name);
        lemma_chains_have_no_gaps(store, parent, names, blocks, run, step, i - 1);
        assert forall|k: int| 0 <= k <= i implies final(store).entries().dom().contains(
            (#[trigger] names@[k]).0@,
        ) by {}
    }
}

/// Every block of a chain is accounted for: taken in, found or turned away. The
/// first to be turned away is absent, and so is what it hangs below or there is
/// no memory to be had; the one before it is resident.
pub proof fn lemma_chain_is_accounted_for<C: Costs>(
    store: &mut KvStore<C>,
    parent: Option<BlockHash>,
    names: &[(BlockHash, u32)],
    blocks: &[&[u8]],
    run: ChainRun,
    report: AdmitReport,
    spare: u128,
)
    requires
        call_ensures(
            KvStore::<C>::admit_chain,
            (store, parent, names, blocks, run),
            ChainStep::Done(report),
        ),
    ensures
        ({
            let after = final(store).entries();
            let kept = report.inserted + report.deduped;
            let above = if kept == 0 {
                parent
            } else {
                Some(names@[kept - 1].0)
            };
            &&& kept + report.dropped == names@.len()
            &&& report.inserted >= run.stored()
            &&& report.deduped >= run.found()
            &&& run.next() < kept ==> after.dom().contains(names@[kept - 1].0@)
            &&& report.dropped > 0 ==> {
                &&& !after.dom().contains(names@[kept as int].0@)
                &&& {
                    ||| above matches Some(above) && !after.dom().contains(above@)
                    ||| final(store).free_slots() == 0 && !(after.dom().contains(spare) && (
                    after[spare].place matches Place::Ram { .. }) && after[spare].children == 0
                        && after[spare].pins == 0 && above != Some(BlockHash { name: spare })
                        && !final(store).withheld().contains(spare))
                }
            }
            // With memory for all that is left nothing is turned away.
            &&& old(store).free_slots() >= names@.len() - run.next() && run.next() == 0
                && parent is None ==> report.dropped == 0 && final(store).free_slots()
                + report.inserted == old(store).free_slots() + run.stored()
        }),
{
    let after = final(store).entries();
    let kept = report.inserted + report.deduped;
    if report.dropped > 0 {
        let above = super::link_above(parent, names@, kept);
        assert(final(store).refuses(names@[kept as int].0, above));
        if super::is_idle(after, above, spare) && final(store).has_no_room(
            final(store).passed_over(),
            above,
        ) {
            assert(!super::is_due(
                after,
                final(store).withheld(),
                final(store).passed_over(),
                spare,
            ));
        }
    }
}

/// The blocks of a sequence get the names of that sequence. A block that
/// admitting a sequence brought in is its `i`-th full block for some `i`: it
/// bears the name of that block, hangs below the one before it, or below
/// nothing if it is the first, covers the tokens so far, and holds the bytes
/// handed in for it.
pub proof fn lemma_sequence_is_named_and_linked<C: Costs>(
    store: &mut KvStore<C>,
    tokens: &[TokenId],
    blocks: &[&[u8]],
    run: ChainRun,
    step: ChainStep,
    name: u128,
)
    requires
        call_ensures(KvStore::<C>::admit_sequence, (store, tokens, blocks, run), step),
        !old(store).entries().dom().contains(name),
        final(store).entries().dom().contains(name),
    ensures
        exists|i: int|
            {
                let entry = final(store).entries()[name];
                let root = old(store).root();
                let width = old(store).shape().tokens_per_block as nat;
                &&& run.next() <= i < blocks@.len()
                &&& final(store).contents(name) == (#[trigger] blocks@[i])@
                &&& name == crate::block::chain_name(root, width, tokens@, i as nat)
                &&& i == 0 ==> entry.parent is None
                &&& i > 0 ==> entry.parent == Some(
                    BlockHash {
                        name: crate::block::chain_name(root, width, tokens@, (i - 1) as nat),
                    },
                )
                &&& i > 0 ==> final(store).entries().dom().contains(
                    crate::block::chain_name(root, width, tokens@, (i - 1) as nat),
                )
                &&& entry.depth_tokens == ((i + 1) * width) as u32
            },
{
    let root = old(store).root();
    let width = old(store).shape().tokens_per_block as nat;
    let links = super::sequence_links(root, width, tokens@, blocks@.len());
    let i = choose|i: int|
        run.next() <= i < links.len() && #[trigger] final(store).came_with(
            None,
            links,
            blocks@,
            i,
            name,
        );
    assert(final(store).came_with(None, links, blocks@, i, name));
    final(store).lemma_leaf_is_not_its_parent(name);
    assert(final(store).contents(name) == blocks@[i]@);
}

/// When the `i`-th of some names, hit in turn, was last used: no later hit was
/// on the same name.
proof fn lemma_hit_in_turn(
    entries: Map<u128, Entry>,
    clock: u64,
    hashes: Seq<BlockHash>,
    count: nat,
    i: int,
)
    requires
        0 <= i < count <= hashes.len(),
        forall|k: int| i < k < count ==> (#[trigger] hashes[k]) != hashes[i],
    ensures
        ({
            let name = hashes[i]@;
            let now = crate::index::after_hits(entries, clock, hashes, count)[name];
            &&& now.last_access == (if clock + i + 1 > u64::MAX {
                u64::MAX as int
            } else {
                clock + i + 1
            })
            &&& now == (Entry { last_access: now.last_access, ..entries[name] })
        }),
    decreases count,
{
    let before = (count - 1) as nat;
    if i < count - 1 {
        lemma_hit_in_turn(entries, clock, hashes, before, i);
        assert(hashes[count - 1] != hashes[i]);
    } else {
        lemma_hits_keep_the_rest(entries, clock, hashes, before, hashes[i]@);
    }
}

proof fn lemma_hits_keep_the_rest(
    entries: Map<u128, Entry>,
    clock: u64,
    hashes: Seq<BlockHash>,
    count: nat,
    name: u128,
)
    requires
        count <= hashes.len(),
    ensures
        ({
            let now = crate::index::after_hits(entries, clock, hashes, count)[name];
            now == (Entry { last_access: now.last_access, ..entries[name] })
        }),
    decreases count,
{
    if count > 0 {
        lemma_hits_keep_the_rest(entries, clock, hashes, (count - 1) as nat, name);
    }
}

/// A lookup finds the leading run. All of the first `matched` names are
/// resident, and the one after them is not, if there is one. Nothing moves,
/// nothing is dropped and no bytes change. What was found has been used, each
/// name later than the one before it, and is worth what the costs say at the
/// clock of the tier it lies in; what was not found is left as it was.
pub proof fn lemma_lookup_finds_the_leading_run<C: Costs>(
    store: &mut KvStore<C>,
    hashes: &[BlockHash],
    matched: usize,
    i: int,
    name: u128,
)
    requires
        call_ensures(KvStore::<C>::match_prefix, (store, hashes), matched),
        old(store).entries().dom().contains(name),
    ensures
        matched <= hashes@.len(),
        0 <= i < matched ==> old(store).entries().dom().contains(hashes@[i]@),
        matched < hashes@.len() ==> !old(store).entries().dom().contains(
            hashes@[matched as int]@,
        ),
        final(store).entries().dom() == old(store).entries().dom(),
        final(store).contents(name) == old(store).contents(name),
        final(store).ram_inflation() == old(store).ram_inflation(),
        final(store).disk_inflation() == old(store).disk_inflation(),
        final(store).free_slots() == old(store).free_slots(),
        ({
            let was = old(store).entries()[name];
            let now = final(store).entries()[name];
            &&& now.place == was.place
            &&& now.parent == was.parent
            &&& now.children == was.children
            &&& now.pins == was.pins
            &&& now.depth_tokens == was.depth_tokens
            &&& (forall|k: int| 0 <= k < matched ==> (#[trigger] hashes@[k])@ != name) ==> now
                == was
            &&& 0 <= i < matched && hashes@[i]@ == name && (forall|k: int|
                i < k < matched ==> (#[trigger] hashes@[k]) != hashes@[i]) ==> {
                &&& now.last_access == (if old(store).clock() + i + 1 > u64::MAX {
                    u64::MAX as int
                } else {
                    old(store).clock() + i + 1
                })
                &&& now.priority_access == now.last_access
                &&& call_ensures(
                    C::priority_for,
                    (
                        &old(store).pricing(),
                        match was.place {
                            Place::Ram { .. } => old(store).ram_inflation(),
                            Place::Disk(_) => old(store).disk_inflation(),
                        },
                        was.depth_tokens,
                    ),
                    now.priority,
                )
            }
        }),
{
    assert(old(store).refreshed(final(store), hashes@, matched as nat, name));
    assert(old(store).carries(final(store), name));
    if 0 <= i < matched && hashes@[i]@ == name && (forall|k: int|
        i < k < matched ==> (#[trigger] hashes@[k]) != hashes@[i]) {
        lemma_hit_in_turn(
            old(store).entries(),
            old(store).clock(),
            hashes@,
            matched as nat,
            i,
        );
    }
}

/// A lookup is counted once, with how many blocks were asked about and how many
/// of them were found.
pub proof fn lemma_lookup_is_counted<C: Costs>(
    store: &mut KvStore<C>,
    hashes: &[BlockHash],
    matched: usize,
)
    requires
        call_ensures(KvStore::<C>::match_prefix, (store, hashes), matched),
        old(store).counters().lookups < u64::MAX,
        old(store).counters().queried_blocks + hashes@.len() <= u64::MAX,
        old(store).counters().hit_blocks + matched <= u64::MAX,
    ensures
        final(store).counters() == (Stats {
            lookups: (old(store).counters().lookups + 1) as u64,
            queried_blocks: (old(store).counters().queried_blocks + hashes@.len()) as u64,
            hit_blocks: (old(store).counters().hit_blocks + matched) as u64,
            ..old(store).counters()
        }),
{
}

/// A prompt is looked up by the names of its full blocks, and what is found is
/// counted in whole blocks of tokens.
pub proof fn lemma_prompt_is_looked_up_by_name<C: Costs>(
    store: &mut KvStore<C>,
    tokens: &[TokenId],
    found: Lookup,
    i: int,
)
    requires
        call_ensures(KvStore::<C>::lookup, (store, tokens), found),
        0 <= i < found.hashes@.len(),
    ensures
        ({
            let width = old(store).shape().tokens_per_block as int;
            &&& found.tokens_per_block == width
            &&& found.hashes@.len() * width <= tokens@.len() < (found.hashes@.len() + 1) * width
            &&& found.hashes@[i]@ == crate::block::chain_name(
                old(store).root(),
                width as nat,
                tokens@,
                i as nat,
            )
            &&& found.matched <= found.hashes@.len()
            &&& i < found.matched ==> old(store).entries().dom().contains(found.hashes@[i]@)
            &&& i == found.matched ==> !old(store).entries().dom().contains(found.hashes@[i]@)
            &&& final(store).entries().dom() == old(store).entries().dom()
        }),
{
    let width = old(store).shape().tokens_per_block as int;
    let count = found.hashes@.len() as int;
    assert(count * width <= tokens@.len() && tokens@.len() < (count + 1) * width)
        by (nonlinear_arith)
        requires
            count == tokens@.len() as int / width,
            width > 0,
    ;
}

/// What a lookup says of itself: the tokens of the blocks found, the names of
/// those that were not, and whether there were blocks and all were found.
pub proof fn lemma_lookup_adds_up(
    found: &Lookup,
    tokens: usize,
    missing: &[BlockHash],
    full: bool,
)
    requires
        found.matched <= found.hashes@.len(),
        found.hashes@.len() * found.tokens_per_block <= usize::MAX,
        call_ensures(Lookup::hit_tokens, (found,), tokens),
        call_ensures(Lookup::missing, (found,), missing),
        call_ensures(Lookup::is_full_hit, (found,), full),
    ensures
        tokens == found.matched * found.tokens_per_block,
        missing@ == found.hashes@.skip(found.matched as int),
        full <==> found.hashes@.len() > 0 && missing@.len() == 0,
{
}

/// A fetch hands over the leading run. Part `i` is for name `i`, its bytes as
/// they were where they are in memory, and unread where they are on disk. The
/// run stops short only at a block that is not there, that cannot have another
/// reader, or that is on disk with no memory to be had for it. No block changes
/// its bytes, its parent or its depth, and whatever has readers stays where it
/// is.
pub proof fn lemma_fetch_hands_over_the_leading_run<C: Costs>(
    store: &mut KvStore<C>,
    hashes: &[BlockHash],
    run: FetchRun,
    parts: Vec<FetchPart>,
    i: int,
    name: u128,
    spare: u128,
)
    requires
        call_ensures(KvStore::<C>::begin_fetch, (store, hashes, run), FetchStep::Done(parts)),
        run.parts().len() == 0,
        0 <= i < parts@.len(),
    ensures
        parts@.len() <= hashes@.len(),
        match parts@[i] {
            FetchPart::Ready(block) => {
                &&& block.name() == hashes@[i]@
                &&& block.payload() == old(store).contents(hashes@[i]@)
                &&& final(store).entries()[hashes@[i]@].place matches Place::Ram { .. }
            },
            FetchPart::Pending(promotion) => {
                &&& promotion.name() == hashes@[i]@
                &&& !promotion.is_filled()
                &&& final(store).entries()[hashes@[i]@].place == Place::Disk(promotion.source())
            },
        },
        parts@.len() < hashes@.len() ==> {
            let next = hashes@[parts@.len() as int]@;
            let after = final(store).entries();
            ||| !after.dom().contains(next)
            ||| after[next].pins >= u64::MAX - 1
            ||| (after[next].place matches Place::Disk(_)) && final(store).free_slots() == 0 && !(
            after.dom().contains(spare) && (after[spare].place matches Place::Ram { .. })
                && after[spare].children == 0 && after[spare].pins == 0 && spare != next && !old(
                store).withheld().contains(spare))
        },
        final(store).entries().dom().contains(name) ==> {
            &&& old(store).entries().dom().contains(name)
            &&& final(store).contents(name) == old(store).contents(name)
            &&& final(store).entries()[name].parent == old(store).entries()[name].parent
            &&& final(store).entries()[name].depth_tokens == old(
                store).entries()[name].depth_tokens
        },
        old(store).entries().dom().contains(name) && old(store).entries()[name].pins > 0 ==> {
            &&& final(store).entries().dom().contains(name)
            &&& final(store).entries()[name].place == old(store).entries()[name].place
        },
{
    assert(parts@[i].name() == hashes@[i]@);
    if final(store).entries().dom().contains(name) {
        assert(old(store).remembers(final(store), name));
    }
    if parts@.len() < hashes@.len() {
        let next = hashes@[parts@.len() as int];
        assert(super::is_spare(final(store).entries(), Some(next), spare) <==> {
            let after = final(store).entries();
            &&& after.dom().contains(spare)
            &&& after[spare].place matches Place::Ram { .. }
            &&& after[spare].children == 0
            &&& after[spare].pins == 0
            &&& spare != next@
        });
    }
}

/// Every block of a fetch has a reader more, for each time it was asked for,
/// and no other block has.
pub proof fn lemma_fetch_holds_its_blocks<C: Costs>(
    store: &mut KvStore<C>,
    hashes: &[BlockHash],
    run: FetchRun,
    parts: Vec<FetchPart>,
    name: u128,
)
    requires
        call_ensures(KvStore::<C>::begin_fetch, (store, hashes, run), FetchStep::Done(parts)),
        run.parts().len() == 0,
        !run.is_waiting(),
        forall|k: int, l: int|
            0 <= k < hashes@.len() && 0 <= l < hashes@.len() && k != l ==> (#[trigger] hashes@[k])
                != (#[trigger] hashes@[l]),
    ensures
        final(store).pins_of(name) == old(store).pins_of(name) + if exists|i: int|
            0 <= i < parts@.len() && (#[trigger] hashes@[i])@ == name {
            1nat
        } else {
            0nat
        },
        final(store).entries().dom().contains(name) ==> final(store).pins_of(name) == final(
            store).entries()[name].pins,
        old(store).entries().dom().contains(name) ==> old(store).pins_of(name) == old(
            store).entries()[name].pins,
{
    let names = super::part_names(parts@);
    assert(super::claims(run.parts(), false, hashes@) =~= Seq::<u128>::empty());
    assert forall|k: int| 0 <= k < names.len() implies names[k] == (#[trigger] hashes@[k])@ by {
        assert(parts@[k].name() == hashes@[k]@);
    }
    assert forall|k: int, l: int|
        0 <= k < names.len() && 0 <= l < names.len() && k != l implies names[k] != names[l] by {
        assert(hashes@[k] != hashes@[l]);
        assert(names[k] == hashes@[k]@ && names[l] == hashes@[l]@);
    }
    lemma_occurs_once(names, name);
    assert(super::occurrences(Seq::<u128>::empty(), name) == 0);
    if exists|i: int| 0 <= i < parts@.len() && (#[trigger] hashes@[i])@ == name {
        let i = choose|i: int| 0 <= i < parts@.len() && (#[trigger] hashes@[i])@ == name;
        assert(names[i] == name);
    } else if exists|i: int| 0 <= i < names.len() && names[i] == name {
        let i = choose|i: int| 0 <= i < names.len() && names[i] == name;
        assert(hashes@[i]@ == name);
    }
}

/// Where no name is listed twice, one that is listed occurs once.
proof fn lemma_occurs_once(names: Seq<u128>, name: u128)
    requires
        forall|k: int, l: int|
            0 <= k < names.len() && 0 <= l < names.len() && k != l ==> names[k] != names[l],
    ensures
        super::occurrences(names, name) == (if exists|i: int|
            0 <= i < names.len() && names[i] == name {
            1nat
        } else {
            0nat
        }),
    decreases names.len(),
{
    if names.len() > 0 {
        let before = names.drop_last();
        lemma_occurs_once(before, name);
        if exists|i: int| 0 <= i < before.len() && before[i] == name {
            let i = choose|i: int| 0 <= i < before.len() && before[i] == name;
            assert(names[i] == name);
            assert(names[names.len() - 1] != names[i]);
        } else if names.last() == name {
            assert(names[names.len() - 1] == name);
        } else if exists|i: int| 0 <= i < names.len() && names[i] == name {
            let i = choose|i: int| 0 <= i < names.len() && names[i] == name;
            assert(before[i] == name);
        }
    }
}

/// A fetch ends with what could be had: the parts up to the first one on disk
/// that was not filled, each block under the name of its part. Where the part
/// was in memory the block is the one that was handed over at the start.
pub proof fn lemma_finished_fetch_stops_at_the_first_gap<C: Costs>(
    store: &mut KvStore<C>,
    parts: Vec<FetchPart>,
    blocks: Vec<PinnedBlock>,
    i: int,
)
    requires
        call_ensures(KvStore::<C>::finish_fetch, (store, parts), blocks),
        0 <= i < parts@.len(),
    ensures
        blocks@.len() <= parts@.len(),
        i < blocks@.len() ==> match parts@[i] {
            FetchPart::Ready(block) => blocks@[i] == block,
            FetchPart::Pending(promotion) => {
                &&& promotion.is_filled()
                &&& blocks@[i].name() == promotion.name()
                &&& blocks@[i].payload() == final(store).contents(promotion.name())
                &&& final(store).entries()[promotion.name()].place matches Place::Ram { .. }
            },
        },
        i == blocks@.len() ==> (parts@[i] matches FetchPart::Pending(promotion)
            && !promotion.is_filled()),
{
    if i < blocks@.len() {
        assert(parts@[i].is_ready());
        assert(match parts@[i] {
            FetchPart::Ready(block) => blocks@[i] == block,
            FetchPart::Pending(promotion) => {
                &&& blocks@[i].name() == promotion.name()
                &&& blocks@[i].payload() == final(store).contents(promotion.name())
                &&& final(store).entries()[promotion.name()].place is Ram
            },
        });
    }
}

/// What was read off disk is home: a block on disk that was filled lies in
/// memory now, in the slot that was set aside, holds the bytes that were read,
/// keeps its copy on disk, and is worth what the costs say at the clock of
/// memory. No other block changes, and none is dropped.
pub proof fn lemma_what_was_read_is_home<C: Costs>(
    store: &mut KvStore<C>,
    parts: Vec<FetchPart>,
    blocks: Vec<PinnedBlock>,
    i: int,
    name: u128,
)
    requires
        call_ensures(KvStore::<C>::finish_fetch, (store, parts), blocks),
        0 <= i < blocks@.len(),
        forall|k: int, l: int|
            0 <= k < parts@.len() && 0 <= l < parts@.len() && k != l ==> (
            #[trigger] parts@[k]).name() != (#[trigger] parts@[l]).name(),
        old(store).entries().dom().contains(name),
    ensures
        final(store).entries().dom() == old(store).entries().dom(),
        final(store).clock() == old(store).clock(),
        parts@[i] matches FetchPart::Pending(promotion) ==> promotion.name() == name && old(
            store).entries()[name].place is Disk ==> {
            let was = old(store).entries()[name];
            let now = final(store).entries()[name];
            &&& final(store).contents(name) == promotion.staged()
            &&& now.place matches Place::Ram { .. }
            &&& now.place == was.place || (now.place == (Place::Ram {
                slot: crate::slab::SlotId { number: promotion.target() },
                backing: Some(promotion.source()),
            }) && call_ensures(
                C::priority_for,
                (&old(store).pricing(), old(store).ram_inflation(), was.depth_tokens),
                now.priority,
            ))
        },
        (forall|k: int|
            0 <= k < blocks@.len() ==> !((#[trigger] parts@[k]) matches FetchPart::Pending(
                promotion,
            ) && promotion.name() == name)) ==> {
            &&& final(store).contents(name) == old(store).contents(name)
            &&& final(store).entries()[name].place == old(store).entries()[name].place
            &&& final(store).entries()[name].priority == old(store).entries()[name].priority
        },
        final(store).entries()[name].parent == old(store).entries()[name].parent,
        final(store).entries()[name].depth_tokens == old(store).entries()[name].depth_tokens,
        final(store).entries()[name].last_access == old(store).entries()[name].last_access,
{
    let was = old(store).entries()[name];
    let now = final(store).entries()[name];
    let ready = blocks@.len();
    if let FetchPart::Pending(promotion) = parts@[i] {
        if promotion.name() == name && was.place is Disk {
            assert forall|j: int| 0 <= j < i implies !#[trigger] super::reads_name(
                parts@,
                j,
                promotion.name(),
            ) by {
                assert(parts@[j].name() != parts@[i].name());
            }
            assert(super::is_first_read(parts@, ready, i, promotion));
            lemma_finished_fetch_stops_at_the_first_gap(store, parts, blocks, i);
            if now.place != was.place {
                let (j, other) = choose|j: int, other: crate::store::Promotion| #[trigger]
                    super::is_first_read(parts@, ready, j, other) && other.name() == name && old(
                        store).brings_home(other, was, now);
                assert(super::is_first_read(parts@, ready, j, other));
                assert(parts@[j].name() == name && parts@[i].name() == name);
                assert(j == i);
            }
        }
    }
    if forall|k: int|
        0 <= k < ready ==> !((#[trigger] parts@[k]) matches FetchPart::Pending(promotion)
            && promotion.name() == name) {
        if now.place != was.place {
            let (j, other) = choose|j: int, other: crate::store::Promotion| #[trigger]
                super::is_first_read(parts@, ready, j, other) && other.name() == name && old(
                    store).brings_home(other, was, now);
            assert(super::is_first_read(parts@, ready, j, other));
            assert(parts@[j] == FetchPart::Pending(other));
        }
        if final(store).contents(name) != old(store).contents(name) {
            let (j, other) = choose|j: int, other: crate::store::Promotion| #[trigger]
                super::is_first_read(parts@, ready, j, other) && other.name() == name && old(
                    store).entries()[name].place is Disk && final(store).contents(name)
                    == other.staged();
            assert(super::is_first_read(parts@, ready, j, other));
            assert(parts@[j] == FetchPart::Pending(other));
        }
    }
}

/// A run that is held open is the leading run: block `i` is that of name `i`
/// with the bytes it has. It stops short only after a read that failed, at a
/// block that is not there, that cannot have another reader, or that is on disk
/// with no memory to be had for it. What a run has read for a block on disk is
/// what that block holds; no other block changes its bytes, and none its
/// parent or its depth.
pub proof fn lemma_pinned_run_is_the_leading_run<C: Costs>(
    store: &mut KvStore<C>,
    hashes: &[BlockHash],
    run: PinRun,
    blocks: Vec<PinnedBlock>,
    i: int,
    name: u128,
    spare: u128,
)
    requires
        call_ensures(KvStore::<C>::pin_run, (store, hashes, run), PinStep::Done(blocks)),
    ensures
        run.blocks().len() <= blocks@.len() <= hashes@.len(),
        0 <= i < blocks@.len() ==> {
            &&& blocks@[i].name() == hashes@[i]@
            &&& blocks@[i].payload() == final(store).contents(hashes@[i]@)
        },
        blocks@.len() < hashes@.len() && !(run.reading() matches Some(promotion)
            && !promotion.is_filled()) ==> {
            let next = hashes@[blocks@.len() as int]@;
            let after = final(store).entries();
            ||| !after.dom().contains(next)
            ||| after[next].pins == u64::MAX
            ||| (after[next].place matches Place::Disk(_)) && final(store).free_slots() == 0 && !(
            after.dom().contains(spare) && (after[spare].place matches Place::Ram { .. })
                && after[spare].children == 0 && after[spare].pins == 0 && spare != next && !old(
                store).withheld().contains(spare))
        },
        final(store).entries().dom().contains(name) ==> {
            &&& old(store).entries().dom().contains(name)
            &&& final(store).entries()[name].parent == old(store).entries()[name].parent
            &&& final(store).entries()[name].depth_tokens == old(
                store).entries()[name].depth_tokens
            &&& match run.reading() {
                None => final(store).contents(name) == old(store).contents(name),
                Some(promotion) => final(store).contents(name) == (if promotion.is_filled()
                    && promotion.name() == name && old(store).entries()[name].place is Disk {
                    promotion.staged()
                } else {
                    old(store).contents(name)
                }),
            }
        },
{
    if 0 <= i < blocks@.len() {
        assert(blocks@[i].name() == hashes@[i]@);
    }
    if blocks@.len() < hashes@.len() {
        let next = hashes@[blocks@.len() as int];
        assert(super::is_spare(final(store).entries(), Some(next), spare) <==> {
            let after = final(store).entries();
            &&& after.dom().contains(spare)
            &&& after[spare].place matches Place::Ram { .. }
            &&& after[spare].children == 0
            &&& after[spare].pins == 0
            &&& spare != next@
        });
    }
}

/// Every block of a run that is held open has a reader more, and no other block
/// has.
pub proof fn lemma_pinned_run_holds_its_blocks<C: Costs>(
    store: &mut KvStore<C>,
    hashes: &[BlockHash],
    run: PinRun,
    blocks: Vec<PinnedBlock>,
    name: u128,
)
    requires
        call_ensures(KvStore::<C>::pin_run, (store, hashes, run), PinStep::Done(blocks)),
        run.blocks().len() == 0,
        forall|k: int, l: int|
            0 <= k < hashes@.len() && 0 <= l < hashes@.len() && k != l ==> (#[trigger] hashes@[k])
                != (#[trigger] hashes@[l]),
    ensures
        final(store).pins_of(name) == old(store).pins_of(name) + if exists|i: int|
            0 <= i < blocks@.len() && (#[trigger] hashes@[i])@ == name {
            1nat
        } else {
            0nat
        },
{
    let names = super::pinned_names(blocks@);
    assert(super::pinned_names(run.blocks()) =~= Seq::<u128>::empty());
    assert forall|k: int| 0 <= k < names.len() implies names[k] == (#[trigger] hashes@[k])@ by {
        assert(blocks@[k].name() == hashes@[k]@);
    }
    assert forall|k: int, l: int|
        0 <= k < names.len() && 0 <= l < names.len() && k != l implies names[k] != names[l] by {
        assert(hashes@[k] != hashes@[l]);
        assert(names[k] == hashes@[k]@ && names[l] == hashes@[l]@);
    }
    lemma_occurs_once(names, name);
    assert(super::occurrences(Seq::<u128>::empty(), name) == 0);
    if exists|i: int| 0 <= i < blocks@.len() && (#[trigger] hashes@[i])@ == name {
        let i = choose|i: int| 0 <= i < blocks@.len() && (#[trigger] hashes@[i])@ == name;
        assert(names[i] == name);
    } else if exists|i: int| 0 <= i < names.len() && names[i] == name {
        let i = choose|i: int| 0 <= i < names.len() && names[i] == name;
        assert(hashes@[i]@ == name);
    }
}

/// Letting a run go takes one reader off each of its blocks and changes nothing
/// else at all.
pub proof fn lemma_letting_go_only_unpins<C: Costs>(
    store: &mut KvStore<C>,
    blocks: &[PinnedBlock],
    name: u128,
)
    requires
        call_ensures(KvStore::<C>::unpin_all, (store, blocks), ()),
        forall|k: int, l: int|
            0 <= k < blocks@.len() && 0 <= l < blocks@.len() && k != l ==> (
            #[trigger] blocks@[k]).name() != (#[trigger] blocks@[l]).name(),
        old(store).entries().dom().contains(name),
    ensures
        ({
            let was = old(store).entries()[name];
            let listed = exists|i: int|
                0 <= i < blocks@.len() && (#[trigger] blocks@[i]).name() == name;
            &&& final(store).entries().dom() == old(store).entries().dom()
            &&& final(store).contents(name) == old(store).contents(name)
            &&& final(store).entries()[name] == (Entry {
                pins: if listed && was.pins > 0 {
                    (was.pins - 1) as u64
                } else {
                    was.pins
                },
                ..was
            })
            &&& final(store).clock() == old(store).clock()
            &&& final(store).counters() == old(store).counters()
            &&& final(store).free_slots() == old(store).free_slots()
        }),
{
    let names = super::pinned_names(blocks@);
    assert forall|k: int, l: int|
        0 <= k < names.len() && 0 <= l < names.len() && k != l implies names[k] != names[l] by {
        assert(blocks@[k].name() != blocks@[l].name());
    }
    lemma_occurs_once(names, name);
    if exists|i: int| 0 <= i < blocks@.len() && (#[trigger] blocks@[i]).name() == name {
        let i = choose|i: int| 0 <= i < blocks@.len() && (#[trigger] blocks@[i]).name() == name;
        assert(names[i] == name);
    } else if exists|i: int| 0 <= i < names.len() && names[i] == name {
        let i = choose|i: int| 0 <= i < names.len() && names[i] == name;
        assert(blocks@[i].name() == name);
    }
    assert(final(store).pins_of(name) == final(store).entries()[name].pins);
    assert(old(store).pins_of(name) == old(store).entries()[name].pins);
}

/// Writeback takes blocks that lie in memory only, that nobody reads and that
/// the costs call worth a slot on disk, cheapest to keep first, and no more than
/// were asked for. Each job holds the bytes of its block and pins it. Nothing
/// moves and no other block changes.
pub proof fn lemma_writeback_takes_the_cheapest_dirty<C: Costs>(
    store: &mut KvStore<C>,
    max: usize,
    jobs: Vec<Writeback>,
    i: int,
    j: int,
    name: u128,
)
    requires
        call_ensures(KvStore::<C>::begin_writeback, (store, max), jobs),
        0 <= i < jobs@.len(),
        0 <= j < jobs@.len(),
    ensures
        jobs@.len() <= max,
        old(store).tiered(),
        ({
            let a = old(store).entries()[jobs@[i].name()];
            let b = old(store).entries()[jobs@[j].name()];
            &&& old(store).entries().dom().contains(jobs@[i].name())
            &&& a.place matches Place::Ram { backing: None, .. }
            &&& a.pins == 0
            &&& call_ensures(C::worth_demoting, (&old(store).pricing(), a.depth_tokens), true)
            &&& jobs@[i].payload() == old(store).contents(jobs@[i].name())
            &&& !jobs@[i].is_written()
            &&& !old(store).reserved_on_disk().contains(jobs@[i].target().number)
            &&& i < j ==> jobs@[i].name() != jobs@[j].name() && jobs@[i].target().number
                != jobs@[j].target().number && (a.priority < b.priority || (a.priority
                == b.priority && a.priority_access <= b.priority_access))
            &&& final(store).entries()[jobs@[i].name()].pins == 1
            &&& final(store).entries()[jobs@[i].name()].place == a.place
            &&& final(store).entries()[jobs@[i].name()].priority == a.priority
        }),
        final(store).entries().dom() == old(store).entries().dom(),
        final(store).counters() == old(store).counters(),
        final(store).free_slots() == old(store).free_slots(),
        final(store).free_disk_slots() + jobs@.len() == old(store).free_disk_slots(),
        old(store).entries().dom().contains(name) ==> {
            &&& final(store).contents(name) == old(store).contents(name)
            &&& (forall|k: int| 0 <= k < jobs@.len() ==> (#[trigger] jobs@[k]).name() != name)
                ==> final(store).entries()[name] == old(store).entries()[name]
        },
{
    assert(super::is_dirty_spare(old(store).entries(), jobs@[i].name()));
    assert(super::is_dirty_spare(old(store).entries(), jobs@[j].name()));
    if i < j {
        assert(jobs@[i].name() != jobs@[j].name());
        assert(crate::evict::standing(
            jobs@[i].name(),
            old(store).entries()[jobs@[i].name()],
        ).before(crate::evict::standing(jobs@[j].name(), old(store).entries()[jobs@[j].name()])));
    }
}

/// A block that could have been written back was left out only because the
/// costs do not call it worth it, the disk is full, or as many were taken as
/// were asked for and all of them would go first.
pub proof fn lemma_writeback_leaves_out_for_a_reason<C: Costs>(
    store: &mut KvStore<C>,
    max: usize,
    jobs: Vec<Writeback>,
    name: u128,
)
    requires
        call_ensures(KvStore::<C>::begin_writeback, (store, max), jobs),
        old(store).tiered(),
        old(store).entries().dom().contains(name),
        old(store).entries()[name].place matches Place::Ram { backing: None, .. },
        old(store).entries()[name].pins == 0,
        old(store).entries()[name].children == 0,
        !old(store).withheld().contains(name),
        forall|k: int| 0 <= k < jobs@.len() ==> (#[trigger] jobs@[k]).name() != name,
    ensures
        ({
            let entry = old(store).entries()[name];
            ||| call_ensures(C::worth_demoting, (&old(store).pricing(), entry.depth_tokens), false)
            ||| final(store).free_disk_slots() == 0
            ||| exists|ahead: Seq<BlockHash>|
                {
                    &&& #[trigger] ahead.len() == max
                    &&& forall|k: int, l: int|
                        0 <= k < l < max ==> (#[trigger] ahead[k]) != (#[trigger] ahead[l])
                    &&& forall|k: int|
                        0 <= k < max ==> {
                            let first = old(store).entries()[(#[trigger] ahead[k])@];
                            &&& old(store).entries().dom().contains(ahead[k]@)
                            &&& first.place matches Place::Ram { backing: None, .. }
                            &&& first.pins == 0
                            &&& first.priority < entry.priority || (first.priority == entry.priority
                                && first.priority_access <= entry.priority_access)
                        }
                }
        }),
{
    let entries = old(store).entries();
    assert(super::is_dirty_spare(entries, name));
    assert(super::is_due(entries, old(store).withheld(), old(store).passed_over(), name));
    if !crate::evict::judged(old(store).pricing(), entries[name].depth_tokens, false) && final(
        store).free_disk_slots() != 0 {
        let ahead = choose|ahead: Seq<BlockHash>| #[trigger]
            super::is_outranked(entries, max as nat, name, ahead);
        assert(super::is_outranked(entries, max as nat, name, ahead));
        assert forall|k: int| 0 <= k < max implies {
            let first = entries[(#[trigger] ahead[k])@];
            &&& entries.dom().contains(ahead[k]@)
            &&& first.place matches Place::Ram { backing: None, .. }
            &&& first.pins == 0
            &&& first.priority < entries[name].priority || (first.priority
                == entries[name].priority && first.priority_access
                <= entries[name].priority_access)
        } by {
            assert(super::is_dirty_spare(entries, ahead[k]@));
        }
        assert forall|k: int, l: int| 0 <= k < l < max implies (#[trigger] ahead[k]) != (
        #[trigger] ahead[l]) by {
            assert(ahead[k]@ != ahead[l]@);
        }
        assert(ahead.len() == max);
    }
}

/// A job that was written leaves its block in memory with a copy on disk; one
/// that was not leaves it as it was. Either way there is a reader fewer.
pub proof fn lemma_written_back_has_a_copy<C: Costs>(
    store: &mut KvStore<C>,
    jobs: Vec<Writeback>,
    i: int,
    name: u128,
)
    requires
        call_ensures(KvStore::<C>::finish_writeback, (store, jobs), ()),
        0 <= i < jobs@.len(),
    ensures
        final(store).entries().dom() == old(store).entries().dom(),
        ({
            let was = old(store).entries()[jobs@[i].name()];
            let now = final(store).entries()[jobs@[i].name()];
            &&& now.pins == (was.pins - 1) as u64
            &&& jobs@[i].is_written() && (was.place matches Place::Ram { backing: None, .. })
                ==> now.place == (Place::Ram {
                slot: jobs@[i].home(),
                backing: Some(jobs@[i].target()),
            })
            &&& !jobs@[i].is_written() ==> now.place == was.place
            &&& now.parent == was.parent
            &&& now.priority == was.priority
            &&& now.last_access == was.last_access
        }),
        old(store).entries().dom().contains(name) ==> {
            &&& final(store).contents(name) == old(store).contents(name)
            &&& (forall|k: int| 0 <= k < jobs@.len() ==> (#[trigger] jobs@[k]).name() != name)
                ==> final(store).entries()[name] == old(store).entries()[name]
        },
{
    assert(final(store).entries()[jobs@[i].name()].pins == (old(
        store).entries()[jobs@[i].name()].pins - 1) as u64);
}

/// A demotion that was written leaves its block on disk, in the slot set aside
/// for it, and frees a slot in memory. One that failed drops the block if
/// nothing hangs below it, and leaves it where it is otherwise. The clock of
/// memory rises to what the block was worth if it went.
pub proof fn lemma_demotion_frees_a_slot<C: Costs>(
    store: &mut KvStore<C>,
    demotion: Demotion,
    written: bool,
    name: u128,
)
    requires
        call_ensures(KvStore::<C>::finish_demotion, (store, demotion, written), ()),
    ensures
        ({
            let before = old(store).entries();
            let after = final(store).entries();
            let it = demotion.name();
            let went = written || demotion.is_leaf();
            &&& went ==> final(store).free_slots() == old(store).free_slots() + 1
            &&& !went ==> after == before && final(store).free_slots() == old(store).free_slots()
            &&& went ==> final(store).ram_inflation() >= demotion.price() && (final(
                store).ram_inflation() == demotion.price() || final(store).ram_inflation() == old(
                store).ram_inflation())
            &&& final(store).ram_inflation() >= old(store).ram_inflation()
            &&& written && before.dom().contains(it) ==> {
                &&& after.dom() == before.dom()
                &&& after[it].place == Place::Disk(demotion.target())
                &&& after[it].parent == before[it].parent
                &&& after[it].last_access == before[it].last_access
                &&& call_ensures(
                    C::priority_for,
                    (
                        &old(store).pricing(),
                        old(store).disk_inflation(),
                        before[it].depth_tokens,
                    ),
                    after[it].priority,
                )
            }
            &&& !written && demotion.is_leaf() ==> !after.dom().contains(it)
            &&& after.dom().contains(name) ==> before.dom().contains(name) && final(
                store).contents(name) == old(store).contents(name) && after[name].parent
                == before[name].parent
            &&& before.dom().contains(name) && before[name].pins > 0 ==> after.dom().contains(name)
                && after[name].place == before[name].place
            &&& final(store).reserved_on_disk() == old(store).reserved_on_disk().remove(
                demotion.target().number,
            )
        }),
{
    if final(store).entries().dom().contains(demotion.name()) {
        assert(old(store).carries(final(store), demotion.name()));
    }
    if final(store).entries().dom().contains(name) {
        assert(old(store).carries(final(store), name));
    }
    if written && old(store).entries().dom().contains(demotion.name()) {
        assert(final(store).entries().dom() =~= old(store).entries().dom());
    }
}

/// A block that is held open has one reader more and counts as used, later than
/// any other block: it is worth what the costs say at the clock of the tier it
/// lies in. Nothing else changes.
pub proof fn lemma_holding_counts_as_use<C: Costs>(
    earlier: &KvStore<C>,
    later: &KvStore<C>,
    hash: BlockHash,
    other: u128,
)
    requires
        earlier.holds(later, hash),
    ensures
        ({
            let was = earlier.entries()[hash@];
            let now = later.entries()[hash@];
            &&& earlier.entries().dom().contains(hash@)
            &&& later.entries().dom() == earlier.entries().dom()
            &&& now.pins == was.pins + 1
            &&& now.place == was.place
            &&& now.parent == was.parent
            &&& now.children == was.children
            &&& now.depth_tokens == was.depth_tokens
            &&& now.last_access == later.clock()
            &&& now.priority_access == later.clock()
            &&& earlier.clock() < u64::MAX ==> later.clock() == earlier.clock() + 1
            &&& call_ensures(
                C::priority_for,
                (
                    &earlier.pricing(),
                    match was.place {
                        Place::Ram { .. } => earlier.ram_inflation(),
                        Place::Disk(_) => earlier.disk_inflation(),
                    },
                    was.depth_tokens,
                ),
                now.priority,
            )
            &&& other != hash@ && earlier.entries().dom().contains(other)
                ==> later.entries()[other] == earlier.entries()[other]
            &&& earlier.entries().dom().contains(other) ==> later.contents(other)
                == earlier.contents(other)
            &&& later.free_slots() == earlier.free_slots()
            &&& later.counters() == earlier.counters()
        }),
{
    assert(later.entries().dom() =~= earlier.entries().dom());
}

/// What was read off disk becomes the home of its block, next to the copy on
/// disk, and the block is worth what the costs say at the clock of memory. If
/// the block had come home meanwhile, only the slot is given back.
pub proof fn lemma_publishing_brings_home<C: Costs>(
    earlier: &KvStore<C>,
    later: &KvStore<C>,
    promotion: crate::store::Promotion,
    other: u128,
)
    requires
        earlier.publishes(later, promotion),
        earlier.entries().dom().contains(promotion.name()),
    ensures
        ({
            let name = promotion.name();
            let was = earlier.entries()[name];
            let now = later.entries()[name];
            &&& later.entries().dom() == earlier.entries().dom()
            &&& was.place is Disk ==> {
                &&& now.place == (Place::Ram {
                    slot: crate::slab::SlotId { number: promotion.target() },
                    backing: Some(promotion.source()),
                })
                &&& later.contents(name) == promotion.staged()
                &&& now.pins == was.pins
                &&& now.last_access == was.last_access
                &&& now.parent == was.parent
                &&& now.children == was.children
                &&& now.depth_tokens == was.depth_tokens
                &&& later.free_slots() == earlier.free_slots()
                &&& call_ensures(
                    C::priority_for,
                    (&earlier.pricing(), earlier.ram_inflation(), was.depth_tokens),
                    now.priority,
                )
            }
            &&& !(was.place is Disk) ==> now == was && later.contents(name) == earlier.contents(
                name,
            ) && later.free_slots() == earlier.free_slots() + 1
            &&& other != name && earlier.entries().dom().contains(other) ==> later.entries()[other]
                == earlier.entries()[other] && later.contents(other) == earlier.contents(other)
            &&& later.reserved() == earlier.reserved().remove(promotion.target())
        }),
{
    assert(later.entries().dom() =~= earlier.entries().dom());
}

/// One step of a fetch keeps what the steps before it did: a block that has
/// readers keeps the time of its last use, unless it is the one held open now.
proof fn lemma_opening_keeps_uses<C: Costs>(
    earlier: &KvStore<C>,
    later: &KvStore<C>,
    hash: BlockHash,
    opened: super::Opened,
    name: u128,
)
    requires
        earlier.opens(later, hash, false, opened),
        opened is Ready || opened is Pending || opened is Gap,
        name != hash@,
        earlier.entries().dom().contains(name),
        earlier.entries()[name].pins > 0,
    ensures
        later.entries().dom().contains(name),
        later.entries()[name].pins > 0,
        later.entries()[name].last_access == earlier.entries()[name].last_access,
{
    reveal(KvStore::opens);
    if !earlier.same_state(later) {
        let held = choose|held: KvStore<C>|
            {
                &&& #[trigger] earlier.is_held(&held, hash, false)
                &&& match opened {
                    super::Opened::Ready(block) => {
                        &&& held.entries()[hash@].place is Ram
                        &&& *later == held
                        &&& block.name() == hash@
                        &&& block.payload() == held.contents(hash@)
                    },
                    super::Opened::Pending(promotion) => held.sets_aside(later, hash, promotion),
                    super::Opened::Gap => {
                        &&& held.entries()[hash@].place is Disk
                        &&& held.has_no_room(later.passed_over(), Some(hash))
                        &&& held.lets_go(later, hash)
                    },
                    super::Opened::Demote(demotion) => {
                        &&& held.entries()[hash@].place is Disk
                        &&& held.has_to_demote(later, Some(hash), demotion)
                    },
                }
            };
        assert(earlier.holds(&held, hash));
        assert(held.entries()[name] == earlier.entries()[name]);
        if let super::Opened::Pending(promotion) = opened {
            let passed = choose|passed: Set<u128>| #[trigger]
                held.made_way(later, later.entries(), passed, Some(hash))
                    && later.passed_over().subset_of(passed);
            assert(held.made_way(later, later.entries(), passed, Some(hash)));
            if held.free_slots() == 0 {
                let victim = choose|victim: u128| #[trigger]
                    held.gives_way(later.entries(), passed, Some(hash), victim);
                assert(held.gives_way(later.entries(), passed, Some(hash), victim));
                assert(super::is_next_out(
                    held.entries(),
                    held.withheld(),
                    passed,
                    Some(hash),
                    victim,
                ));
                assert(victim != name);
                assert(super::gave_way(held.entries(), later.entries(), victim));
            }
        }
    }
}

/// The first `count` blocks of a fetch were used in turn.
proof fn lemma_opened_in_turn<C: Costs>(
    trace: Seq<KvStore<C>>,
    opened: Seq<super::Opened>,
    hashes: Seq<BlockHash>,
    count: int,
    i: int,
)
    requires
        KvStore::<C>::is_opening(trace, opened, hashes, 0, false),
        0 <= i < count <= opened.len() <= hashes.len(),
        forall|k: int|
            0 <= k < opened.len() - 1 || k == i ==> (#[trigger] opened[k]) is Ready || opened[k] is Pending,
        opened.last() is Ready || opened.last() is Pending || opened.last() is Gap,
        forall|k: int, l: int|
            0 <= k < hashes.len() && 0 <= l < hashes.len() && k != l ==> (#[trigger] hashes[k]) != (
            #[trigger] hashes[l]),
        trace[0].clock() + hashes.len() < u64::MAX,
    ensures
        trace[count].entries().dom().contains(hashes[i]@),
        trace[count].entries()[hashes[i]@].pins > 0,
        trace[count].entries()[hashes[i]@].last_access == trace[0].clock() + i + 1,
    decreases count,
{
    reveal(KvStore::is_opening);
    let last = count - 1;
    assert(trace[last].opens(&trace[last + 1], hashes[last], false, opened[last]));
    if i < last {
        lemma_opened_in_turn(trace, opened, hashes, last, i);
        assert(hashes[i] != hashes[last]);
        assert(hashes[i]@ != hashes[last]@);
        assert(opened[last] is Ready || opened[last] is Pending || opened[last] is Gap) by {
            if last == opened.len() - 1 {
                assert(opened[last] == opened.last());
            }
        }
        lemma_opening_keeps_uses(
            &trace[last],
            &trace[count],
            hashes[last],
            opened[last],
            hashes[i]@,
        );
    } else {
        lemma_opened_clock(trace, opened, hashes, last);
        lemma_opening_is_a_use(&trace[last], &trace[count], hashes[last], opened[last]);
    }
}

/// Each block of a fetch takes one tick of the clock.
proof fn lemma_opened_clock<C: Costs>(
    trace: Seq<KvStore<C>>,
    opened: Seq<super::Opened>,
    hashes: Seq<BlockHash>,
    count: int,
)
    requires
        KvStore::<C>::is_opening(trace, opened, hashes, 0, false),
        0 <= count < opened.len() <= hashes.len(),
        forall|k: int|
            0 <= k < opened.len() - 1 ==> (#[trigger] opened[k]) is Ready || opened[k] is Pending,
        trace[0].clock() + hashes.len() < u64::MAX,
    ensures
        trace[count].clock() == trace[0].clock() + count,
    decreases count,
{
    reveal(KvStore::is_opening);
    if count > 0 {
        let last = count - 1;
        lemma_opened_clock(trace, opened, hashes, last);
        assert(opened[last] is Ready || opened[last] is Pending);
        assert(trace[last].opens(&trace[last + 1], hashes[last], false, opened[last]));
        lemma_opening_is_a_use(&trace[last], &trace[count], hashes[last], opened[last]);
    }
}

/// A block that a fetch holds open has just been used.
proof fn lemma_opening_is_a_use<C: Costs>(
    earlier: &KvStore<C>,
    later: &KvStore<C>,
    hash: BlockHash,
    opened: super::Opened,
)
    requires
        earlier.opens(later, hash, false, opened),
        opened is Ready || opened is Pending,
        earlier.clock() < u64::MAX,
    ensures
        later.clock() == earlier.clock() + 1,
        later.entries().dom().contains(hash@),
        later.entries()[hash@].pins > 0,
        later.entries()[hash@].last_access == later.clock(),
{
    reveal(KvStore::opens);
    let held = choose|held: KvStore<C>|
        {
            &&& #[trigger] earlier.is_held(&held, hash, false)
            &&& match opened {
                super::Opened::Ready(block) => {
                    &&& held.entries()[hash@].place is Ram
                    &&& *later == held
                    &&& block.name() == hash@
                    &&& block.payload() == held.contents(hash@)
                },
                super::Opened::Pending(promotion) => held.sets_aside(later, hash, promotion),
                super::Opened::Gap => {
                    &&& held.entries()[hash@].place is Disk
                    &&& held.has_no_room(later.passed_over(), Some(hash))
                    &&& held.lets_go(later, hash)
                },
                super::Opened::Demote(demotion) => {
                    &&& held.entries()[hash@].place is Disk
                    &&& held.has_to_demote(later, Some(hash), demotion)
                },
            }
        };
    assert(earlier.holds(&held, hash));
    if let super::Opened::Pending(promotion) = opened {
        let passed = choose|passed: Set<u128>| #[trigger]
            held.made_way(later, later.entries(), passed, Some(hash))
                && later.passed_over().subset_of(passed);
        assert(held.made_way(later, later.entries(), passed, Some(hash)));
        if held.free_slots() == 0 {
            let victim = choose|victim: u128| #[trigger]
                held.gives_way(later.entries(), passed, Some(hash), victim);
            assert(held.gives_way(later.entries(), passed, Some(hash), victim));
            assert(super::is_next_out(
                held.entries(),
                held.withheld(),
                passed,
                Some(hash),
                victim,
            ));
            assert(victim != hash@);
            assert(super::gave_way(held.entries(), later.entries(), victim));
        }
    }
}

/// To be fetched is to be used: the blocks of a fetch have been used in turn,
/// each later than the one before it and all later than any other block.
pub proof fn lemma_fetched_blocks_are_used_in_turn<C: Costs>(
    store: &mut KvStore<C>,
    hashes: &[BlockHash],
    run: FetchRun,
    parts: Vec<FetchPart>,
    i: int,
)
    requires
        call_ensures(KvStore::<C>::begin_fetch, (store, hashes, run), FetchStep::Done(parts)),
        run.parts().len() == 0,
        !run.is_waiting(),
        forall|k: int, l: int|
            0 <= k < hashes@.len() && 0 <= l < hashes@.len() && k != l ==> (#[trigger] hashes@[k])
                != (#[trigger] hashes@[l]),
        old(store).clock() + hashes@.len() < u64::MAX,
        0 <= i < parts@.len(),
    ensures
        final(store).entries().dom().contains(hashes@[i]@),
        final(store).entries()[hashes@[i]@].last_access == old(store).clock() + i + 1,
{
    let (trace, opened) = choose|trace: Seq<KvStore<C>>, opened: Seq<super::Opened>|
        {
            &&& #[trigger] old(store).opens_run(hashes@, 0, false, trace, opened)
            &&& super::is_part_run(opened, parts@, 0, parts@.len() as int)
            &&& if opened.len() == parts@.len() {
                parts@.len() == hashes@.len()
            } else {
                opened.len() == parts@.len() + 1 && opened.last() is Gap
            }
            &&& trace.last().counts_lookup(final(store), hashes@.len(), parts@.len())
        };
    assert(old(store).opens_run(hashes@, 0, false, trace, opened));
    assert forall|k: int| 0 <= k < parts@.len() implies (#[trigger] opened[k]) is Ready
        || opened[k] is Pending by {}
    lemma_opened_in_turn(trace, opened, hashes@, opened.len() as int, i);
}

/// The first `count` blocks of a run that was held open at once were used in
/// turn.
proof fn lemma_reached_in_turn<C: Costs>(
    trace: Seq<KvStore<C>>,
    opened: Seq<super::Opened>,
    hashes: Seq<BlockHash>,
    count: int,
    i: int,
)
    requires
        KvStore::<C>::is_reaching(trace, opened, hashes, 0),
        0 <= count <= opened.len() <= hashes.len(),
        forall|k: int| 0 <= k < opened.len() - 1 ==> (#[trigger] opened[k]) is Ready,
        opened.len() > 0 ==> opened.last() is Ready || opened.last() is Gap,
        forall|k: int, l: int|
            0 <= k < hashes.len() && 0 <= l < hashes.len() && k != l ==> (#[trigger] hashes[k]) != (
            #[trigger] hashes[l]),
        trace[0].clock() + hashes.len() < u64::MAX,
    ensures
        count < opened.len() ==> trace[count].clock() == trace[0].clock() + count,
        trace[count].ram_inflation() == trace[0].ram_inflation(),
        trace[count].pricing() == trace[0].pricing(),
        trace[count].entries().dom() == trace[0].entries().dom(),
        forall|name: u128| #[trigger]
            trace[0].entries().dom().contains(name) ==> trace[count].entries()[name].depth_tokens
                == trace[0].entries()[name].depth_tokens,
        0 <= i < count && opened[i] is Ready ==> {
            let now = trace[count].entries()[hashes[i]@];
            &&& trace[0].entries().dom().contains(hashes[i]@)
            &&& now.last_access == trace[0].clock() + i + 1
            &&& now.place is Ram
            &&& call_ensures(
                C::priority_for,
                (
                    &trace[0].pricing(),
                    trace[0].ram_inflation(),
                    trace[0].entries()[hashes[i]@].depth_tokens,
                ),
                now.priority,
            )
        },
    decreases count,
{
    if count > 0 {
        reveal(KvStore::is_reaching);
        reveal(KvStore::reaches);
        let last = count - 1;
        lemma_reached_in_turn(trace, opened, hashes, last, i);
        assert(trace[last].reaches(&trace[last + 1], hashes[last], opened[last]));
        assert(opened[last] is Ready || opened[last] is Gap) by {
            if last == opened.len() - 1 {
                assert(opened[last] == opened.last());
            }
        }
        if opened[last] is Ready {
            assert(trace[last].holds(&trace[count], hashes[last]));
            assert(trace[count].entries().dom() =~= trace[last].entries().dom());
        }
        if 0 <= i < last {
            assert(hashes[i] != hashes[last]);
            assert(hashes[i]@ != hashes[last]@);
        }
    }
}

/// To be held open is to be used: the blocks of a run that was held open at once
/// have been used in turn, each later than the one before it and all later than
/// any other block, and each is worth what the costs say at the clock of memory.
pub proof fn lemma_pinned_blocks_are_used_in_turn<C: Costs>(
    store: &mut KvStore<C>,
    hashes: &[BlockHash],
    run: PinRun,
    blocks: Vec<PinnedBlock>,
    i: int,
)
    requires
        call_ensures(KvStore::<C>::pin_run, (store, hashes, run), PinStep::Done(blocks)),
        run.blocks().len() == 0,
        run.reading() is None,
        forall|k: int, l: int|
            0 <= k < hashes@.len() && 0 <= l < hashes@.len() && k != l ==> (#[trigger] hashes@[k])
                != (#[trigger] hashes@[l]),
        old(store).clock() + hashes@.len() < u64::MAX,
        0 <= i < blocks@.len(),
    ensures
        ({
            let was = old(store).entries()[hashes@[i]@];
            let now = final(store).entries()[hashes@[i]@];
            &&& old(store).entries().dom().contains(hashes@[i]@)
            &&& final(store).entries().dom() == old(store).entries().dom()
            &&& now.last_access == old(store).clock() + i + 1
            &&& call_ensures(
                C::priority_for,
                (&old(store).pricing(), old(store).ram_inflation(), was.depth_tokens),
                now.priority,
            )
            &&& final(store).ram_inflation() == old(store).ram_inflation()
        }),
{
    let (started, trace, opened) = choose|
        started: KvStore<C>,
        trace: Seq<KvStore<C>>,
        opened: Seq<super::Opened>,
    |
        {
            &&& old(store).finishes_read(&started, run)
            &&& #[trigger] started.reaches_run(hashes@, 0, trace, opened)
            &&& super::is_ready_part_run(opened, blocks@, 0, blocks@.len() as int)
            &&& if opened.len() == blocks@.len() {
                blocks@.len() == hashes@.len()
            } else {
                opened.len() == blocks@.len() + 1 && opened.last() is Gap
            }
            &&& trace.last().counts_lookup(final(store), hashes@.len(), blocks@.len())
        };
    assert(started.reaches_run(hashes@, 0, trace, opened));
    assert(started == *old(store));
    assert forall|k: int| 0 <= k < blocks@.len() implies (#[trigger] opened[k]) is Ready by {
        assert(opened[k] == super::Opened::Ready(blocks@[0 + k]));
    }
    if opened.len() == blocks@.len() {
        assert(opened.last() == opened[opened.len() - 1]);
    }
    lemma_reached_in_turn(trace, opened, hashes@, opened.len() as int, i);
}

/// A block on disk that a run reaches for is read into memory first: the run
/// stops to have it read, with memory set aside for it, and it is neither held
/// nor used until it is home.
pub proof fn lemma_run_waits_for_the_disk<C: Costs>(
    store: &mut KvStore<C>,
    hashes: &[BlockHash],
    run: PinRun,
    next: PinRun,
)
    requires
        call_ensures(KvStore::<C>::pin_run, (store, hashes, run), PinStep::Read(next)),
        run.reading() is None,
    ensures
        next.reading() matches Some(promotion) && {
            let at = next.blocks().len() as int;
            &&& at < hashes@.len()
            &&& promotion.name() == hashes@[at]@
            &&& !promotion.is_filled()
            &&& final(store).entries()[hashes@[at]@].place == Place::Disk(promotion.source())
            &&& final(store).reserved() == old(store).reserved().insert(promotion.target())
            &&& !old(store).reserved().contains(promotion.target())
            &&& forall|i: int|
                0 <= i < at ==> (#[trigger] next.blocks()[i]).name() == hashes@[i]@
        },
{
}

/// What is admitted is hit. With memory for all of it, a prompt whose blocks
/// have been handed in is found whole when it is asked for next, and so is the
/// shared part of any prompt that starts with the same tokens.
pub proof fn lemma_admitted_prompt_is_hit<C: Costs>(
    store: &mut KvStore<C>,
    tokens: &[TokenId],
    blocks: &[&[u8]],
    run: ChainRun,
    step: ChainStep,
    next: &mut KvStore<C>,
    asked: &[TokenId],
    found: Lookup,
    shared: nat,
)
    requires
        call_ensures(KvStore::<C>::admit_sequence, (store, tokens, blocks, run), step),
        run.next() == 0,
        old(store).free_slots() >= blocks@.len(),
        *old(next) == *final(store),
        call_ensures(KvStore::<C>::lookup, (next, asked), found),
        shared <= blocks@.len(),
        shared * old(store).shape().tokens_per_block <= asked@.len(),
        shared * old(store).shape().tokens_per_block <= tokens@.len(),
        asked@.take((shared * old(store).shape().tokens_per_block) as int) == tokens@.take(
            (shared * old(store).shape().tokens_per_block) as int,
        ),
        shared <= found.hashes@.len(),
    ensures
        found.matched >= shared,
        step matches ChainStep::Done(report) && report.dropped == 0,
{
    let root = old(store).root();
    let width = old(store).shape().tokens_per_block as nat;
    let links = super::sequence_links(root, width, tokens@, blocks@.len());
    assert(final(store).root() == root && final(store).shape() == old(store).shape());
    crate::naming::lemma_shared_prefix_shares_names(root, width, asked@, tokens@, shared);
    if found.matched < shared {
        let k = found.matched as int;
        assert(found.hashes@[k]@ == crate::block::chain_name(root, width, asked@, k as nat));
        assert(links[k].0@ == crate::block::chain_name(root, width, tokens@, k as nat));
        assert(final(store).entries().dom().contains(links[k].0@));
    }
}

/// A new store is empty: no block, no use counted, every slot free, no disk. It
/// names blocks for the model and layout that it was made for.
pub proof fn lemma_new_store_is_empty<C: Costs>(
    model_id: &str,
    layout: BlockLayout,
    slab: Slab,
    costs: C,
    store: Result<KvStore<C>, SlabError>,
)
    requires
        call_ensures(
            KvStore::<C>::from_slab,
            (model_id, layout, Ok::<Slab, SlabError>(slab), costs),
            store,
        ),
    ensures
        store matches Ok(made) && {
            &&& made.entries().dom() == Set::<u128>::empty()
            &&& made.model() == model_id@
            &&& made.shape() == layout
            &&& made.pricing() == costs
            &&& made.slots() == slab.slots()
            &&& made.free_slots() == slab.slots()
            &&& !made.tiered()
            &&& made.moved() is None
            &&& made.clock() == 0
            &&& made.ram_inflation() == 0
            &&& made.disk_inflation() == 0
            &&& made.counters().lookups == 0
            &&& made.counters().queried_blocks == 0
            &&& made.counters().hit_blocks == 0
            &&& made.counters().inserted_blocks == 0
            &&& made.counters().deduped_blocks == 0
            &&& made.counters().rejected_blocks == 0
            &&& made.counters().evicted_blocks == 0
            &&& made.counters().demoted_blocks == 0
            &&& made.counters().blocking_demotions == 0
            &&& made.counters().written_back == 0
            &&& made.counters().promoted_blocks == 0
            &&& made.counters().bytes_admitted == 0
        },
{
}

/// A store and a hasher made for the same model and layout agree on every name:
/// what is admitted under a name computed elsewhere is found by its tokens.
pub proof fn lemma_store_names_as_a_hasher_does<C: Costs>(
    model_id: &str,
    layout: BlockLayout,
    slab: Slab,
    costs: C,
    store: Result<KvStore<C>, SlabError>,
    hasher: PrefixHasher,
    later: &mut KvStore<C>,
    tokens: &[TokenId],
    names: Vec<BlockHash>,
    found: Lookup,
)
    requires
        call_ensures(
            KvStore::<C>::from_slab,
            (model_id, layout, Ok::<Slab, SlabError>(slab), costs),
            store,
        ),
        call_ensures(PrefixHasher::new, (model_id, &layout), hasher),
        call_ensures(PrefixHasher::chain, (&hasher, tokens), names),
        store matches Ok(made) && made.same_setup(old(later)),
        call_ensures(KvStore::<C>::lookup, (later, tokens), found),
    ensures
        found.hashes@ == names@,
{
    assert(old(later).root() == hasher.root());
    assert(found.hashes@.len() == names@.len());
    assert forall|i: int| 0 <= i < names@.len() implies found.hashes@[i] == names@[i] by {
        assert(names@[i]@ == crate::block::chain_name(
            hasher.root(),
            hasher.width(),
            tokens@,
            i as nat,
        ));
        assert(found.hashes@[i]@ == names@[i]@);
    }
    assert(found.hashes@ =~= names@);
}

/// What is read is what the block holds, and only a block in memory can be read
/// on the spot.
pub proof fn lemma_reads_give_the_bytes<C: Costs>(
    store: &KvStore<C>,
    hash: BlockHash,
    there: bool,
    bytes: Option<&[u8]>,
)
    requires
        call_ensures(KvStore::<C>::contains, (store, hash), there),
        call_ensures(KvStore::<C>::read, (store, hash), bytes),
    ensures
        there <==> store.entries().dom().contains(hash@),
        bytes is Some <==> there && (store.entries()[hash@].place matches Place::Ram { .. }),
        bytes matches Some(bytes) ==> bytes@ == store.contents(hash@),
{
}

/// A fetch, or holding a run open, is one lookup: it is counted with how many
/// blocks were asked for and how many came back.
pub proof fn lemma_fetch_is_counted<C: Costs>(
    store: &mut KvStore<C>,
    hashes: &[BlockHash],
    run: FetchRun,
    parts: Vec<FetchPart>,
)
    requires
        call_ensures(KvStore::<C>::begin_fetch, (store, hashes, run), FetchStep::Done(parts)),
        old(store).counters().lookups < u64::MAX,
        old(store).counters().queried_blocks + hashes@.len() <= u64::MAX,
        old(store).counters().hit_blocks + parts@.len() <= u64::MAX,
    ensures
        final(store).counters().lookups == old(store).counters().lookups + 1,
        final(store).counters().queried_blocks == old(store).counters().queried_blocks
            + hashes@.len(),
        final(store).counters().hit_blocks == old(store).counters().hit_blocks + parts@.len(),
{
}

/// The same of a run that is held open.
pub proof fn lemma_pinned_run_is_counted<C: Costs>(
    store: &mut KvStore<C>,
    hashes: &[BlockHash],
    run: PinRun,
    blocks: Vec<PinnedBlock>,
)
    requires
        call_ensures(KvStore::<C>::pin_run, (store, hashes, run), PinStep::Done(blocks)),
        old(store).counters().lookups < u64::MAX,
        old(store).counters().queried_blocks + hashes@.len() <= u64::MAX,
        old(store).counters().hit_blocks + blocks@.len() <= u64::MAX,
    ensures
        final(store).counters().lookups == old(store).counters().lookups + 1,
        final(store).counters().queried_blocks == old(store).counters().queried_blocks
            + hashes@.len(),
        final(store).counters().hit_blocks == old(store).counters().hit_blocks + blocks@.len(),
{
}

/// A demotion that was written is counted as one that held things up, and as one
/// write of one block.
pub proof fn lemma_demotion_is_counted<C: Costs>(
    store: &mut KvStore<C>,
    demotion: Demotion,
    moved: DiskStats,
)
    requires
        call_ensures(KvStore::<C>::finish_demotion, (store, demotion, true), ()),
        old(store).counters().demoted_blocks < u64::MAX,
        old(store).counters().blocking_demotions < u64::MAX,
        old(store).moved() == Some(moved),
        moved.writes < u64::MAX,
        moved.bytes_written + old(store).shape().size() <= u64::MAX,
    ensures
        final(store).counters() == (Stats {
            demoted_blocks: (old(store).counters().demoted_blocks + 1) as u64,
            blocking_demotions: (old(store).counters().blocking_demotions + 1) as u64,
            ..old(store).counters()
        }),
        final(store).moved() == Some(
            DiskStats {
                writes: (moved.writes + 1) as u64,
                bytes_written: (moved.bytes_written + old(store).shape().size()) as u64,
                ..moved
            },
        ),
{
}

/// What a finished fetch read off disk is counted, block by block.
pub proof fn lemma_reads_are_counted<C: Costs>(
    store: &mut KvStore<C>,
    parts: Vec<FetchPart>,
    blocks: Vec<PinnedBlock>,
    reads: nat,
    moved: DiskStats,
)
    requires
        call_ensures(KvStore::<C>::finish_fetch, (store, parts), blocks),
        blocks@.len() <= parts@.len(),
        reads == Set::new(
            |i: int| 0 <= i < blocks@.len() && parts@[i] is Pending,
        ).len(),
        old(store).counters().promoted_blocks + reads <= u64::MAX,
        old(store).moved() == Some(moved),
        moved.reads + reads <= u64::MAX,
        moved.bytes_read + reads * old(store).shape().size() <= u64::MAX,
    ensures
        final(store).counters() == (Stats {
            promoted_blocks: (old(store).counters().promoted_blocks + reads) as u64,
            ..old(store).counters()
        }),
        final(store).moved() == Some(
            DiskStats {
                reads: (moved.reads + reads) as u64,
                bytes_read: (moved.bytes_read + reads * old(store).shape().size()) as u64,
                ..moved
            },
        ),
{
    lemma_reads_in_counts(parts@, blocks@.len());
}

proof fn lemma_reads_in_counts(parts: Seq<FetchPart>, count: nat)
    requires
        count <= parts.len(),
    ensures
        Set::new(|i: int| 0 <= i < count && parts[i] is Pending).finite(),
        super::reads_in(parts, count) == Set::new(
            |i: int| 0 <= i < count && parts[i] is Pending,
        ).len(),
    decreases count,
{
    let now = Set::new(|i: int| 0 <= i < count && parts[i] is Pending);
    if count == 0 {
        assert(now =~= Set::empty());
    } else {
        let last = count - 1;
        let before = Set::new(|i: int| 0 <= i < last && parts[i] is Pending);
        lemma_reads_in_counts(parts, last as nat);
        if parts[last] is Pending {
            assert(now =~= before.insert(last));
        } else {
            assert(now =~= before);
        }
    }
}

/// What was written back is counted, block by block: each job that was written
/// for a block that had no copy yet.
pub proof fn lemma_copies_are_counted<C: Costs>(
    store: &mut KvStore<C>,
    jobs: Vec<Writeback>,
    copies: nat,
    moved: DiskStats,
)
    requires
        call_ensures(KvStore::<C>::finish_writeback, (store, jobs), ()),
        copies == Set::new(
            |i: int|
                0 <= i < jobs@.len() && jobs@[i].is_written() && (old(
                    store,
                ).entries()[jobs@[i].name()].place matches Place::Ram { backing: None, .. }),
        ).len(),
        old(store).counters().written_back + copies <= u64::MAX,
        old(store).moved() == Some(moved),
        moved.writes + copies <= u64::MAX,
        moved.bytes_written + copies * old(store).shape().size() <= u64::MAX,
    ensures
        final(store).counters() == (Stats {
            written_back: (old(store).counters().written_back + copies) as u64,
            ..old(store).counters()
        }),
        final(store).moved() == Some(
            DiskStats {
                writes: (moved.writes + copies) as u64,
                bytes_written: (moved.bytes_written + copies * old(store).shape().size()) as u64,
                ..moved
            },
        ),
        final(store).free_disk_slots() + copies == old(store).free_disk_slots() + jobs@.len(),
{
    lemma_copies_in_counts(jobs@, old(store).entries(), jobs@.len());
    assert(Set::new(
        |i: int|
            0 <= i < jobs@.len() && jobs@[i].is_written() && old(
                store,
            ).entries()[jobs@[i].name()].place.copy() is None,
    ) =~= Set::new(
        |i: int|
            0 <= i < jobs@.len() && jobs@[i].is_written() && (old(
                store,
            ).entries()[jobs@[i].name()].place matches Place::Ram { backing: None, .. }),
    ));
}

proof fn lemma_copies_in_counts(jobs: Seq<Writeback>, entries: Map<u128, Entry>, count: nat)
    requires
        count <= jobs.len(),
    ensures
        Set::new(
            |i: int|
                0 <= i < count && jobs[i].is_written() && entries[jobs[i].name()].place.copy()
                    is None,
        ).finite(),
        super::copies_in(jobs, entries, count) == Set::new(
            |i: int|
                0 <= i < count && jobs[i].is_written() && entries[jobs[i].name()].place.copy()
                    is None,
        ).len(),
    decreases count,
{
    let now = Set::new(
        |i: int|
            0 <= i < count && jobs[i].is_written() && entries[jobs[i].name()].place.copy() is None,
    );
    if count == 0 {
        assert(now =~= Set::empty());
    } else {
        let last = count - 1;
        let before = Set::new(
            |i: int|
                0 <= i < last && jobs[i].is_written() && entries[jobs[i].name()].place.copy()
                    is None,
        );
        lemma_copies_in_counts(jobs, entries, last as nat);
        if jobs[last].is_written() && entries[jobs[last].name()].place.copy() is None {
            assert(now =~= before.insert(last));
        } else {
            assert(now =~= before);
        }
    }
}

/// Once a fetch is finished no memory is held for it any more, and what is held
/// for others is held still.
pub proof fn lemma_finished_fetch_holds_no_memory<C: Costs>(
    store: &mut KvStore<C>,
    parts: Vec<FetchPart>,
    blocks: Vec<PinnedBlock>,
    slot: u32,
)
    requires
        call_ensures(KvStore::<C>::finish_fetch, (store, parts), blocks),
    ensures
        final(store).reserved().contains(slot) <==> {
            &&& old(store).reserved().contains(slot)
            &&& forall|i: int|
                0 <= i < parts@.len() ==> !((#[trigger] parts@[i]) matches FetchPart::Pending(
                    promotion,
                ) && promotion.target() == slot)
        },
{
    lemma_part_slots_are_targets(parts@, slot);
}

proof fn lemma_part_slots_are_targets(parts: Seq<FetchPart>, slot: u32)
    ensures
        super::part_slots(parts).contains(slot) <==> exists|i: int|
            0 <= i < parts.len() && ((#[trigger] parts[i]) matches FetchPart::Pending(promotion)
                && promotion.target() == slot),
    decreases parts.len(),
{
    if parts.len() > 0 {
        let before = parts.drop_last();
        lemma_part_slots_are_targets(before, slot);
        if exists|i: int|
            0 <= i < before.len() && ((#[trigger] before[i]) matches FetchPart::Pending(promotion)
                && promotion.target() == slot) {
            let i = choose|i: int|
                0 <= i < before.len() && ((#[trigger] before[i]) matches FetchPart::Pending(
                    promotion,
                ) && promotion.target() == slot);
            assert(parts[i] == before[i]);
        }
        if exists|i: int|
            0 <= i < parts.len() && ((#[trigger] parts[i]) matches FetchPart::Pending(promotion)
                && promotion.target() == slot) {
            let i = choose|i: int|
                0 <= i < parts.len() && ((#[trigger] parts[i]) matches FetchPart::Pending(promotion)
                    && promotion.target() == slot);
            if i < before.len() {
                assert(before[i] == parts[i]);
            }
        }
        assert(parts.last() == parts[parts.len() - 1]);
    }
}

/// Once a round of writeback is finished no slot on disk is held for it any
/// more, and what is held for others is held still.
pub proof fn lemma_finished_writeback_holds_no_disk<C: Costs>(
    store: &mut KvStore<C>,
    jobs: Vec<Writeback>,
    slot: u32,
)
    requires
        call_ensures(KvStore::<C>::finish_writeback, (store, jobs), ()),
    ensures
        final(store).reserved_on_disk().contains(slot) <==> {
            &&& old(store).reserved_on_disk().contains(slot)
            &&& forall|i: int|
                0 <= i < jobs@.len() ==> (#[trigger] jobs@[i]).target().number != slot
        },
{
    lemma_job_slots_are_targets(jobs@, slot);
}

proof fn lemma_job_slots_are_targets(jobs: Seq<Writeback>, slot: u32)
    ensures
        super::job_slots(jobs).contains(slot) <==> exists|i: int|
            0 <= i < jobs.len() && (#[trigger] jobs[i]).target().number == slot,
    decreases jobs.len(),
{
    if jobs.len() > 0 {
        let before = jobs.drop_last();
        lemma_job_slots_are_targets(before, slot);
        if exists|i: int|
            0 <= i < before.len() && (#[trigger] before[i]).target().number == slot {
            let i = choose|i: int|
                0 <= i < before.len() && (#[trigger] before[i]).target().number == slot;
            assert(jobs[i] == before[i]);
        }
        if exists|i: int| 0 <= i < jobs.len() && (#[trigger] jobs[i]).target().number == slot {
            let i = choose|i: int|
                0 <= i < jobs.len() && (#[trigger] jobs[i]).target().number == slot;
            if i < before.len() {
                assert(before[i] == jobs[i]);
            }
        }
        assert(jobs.last() == jobs[jobs.len() - 1]);
    }
}

/// A run ends where a block could not be read: nothing past it is held open,
/// and what was held open before it is handed over.
pub proof fn lemma_broken_run_ends<C: Costs>(
    store: &mut KvStore<C>,
    hashes: &[BlockHash],
    run: PinRun,
    blocks: Vec<PinnedBlock>,
    promotion: Promotion,
)
    requires
        call_ensures(KvStore::<C>::pin_run, (store, hashes, run), PinStep::Done(blocks)),
        run.reading() == Some(promotion),
        !promotion.is_filled(),
    ensures
        blocks@ == run.blocks(),
        final(store).entries() == old(store).entries(),
        final(store).free_slots() == old(store).free_slots() + 1,
        final(store).reserved() == old(store).reserved().remove(promotion.target()),
        final(store).moved() == old(store).moved(),
        final(store).clock() == old(store).clock(),
{
    let first = run.blocks().len() as int;
    let (started, trace, opened) = choose|
        started: KvStore<C>,
        trace: Seq<KvStore<C>>,
        opened: Seq<super::Opened>,
    |
        {
            let got = blocks@.len() - first;
            &&& old(store).finishes_read(&started, run)
            &&& #[trigger] started.reaches_run(hashes@, first, trace, opened)
            &&& super::is_ready_part_run(opened, blocks@, first, got)
            &&& opened.len() == 0
            &&& trace.last().counts_lookup(final(store), hashes@.len(), blocks@.len())
        };
    assert(started.reaches_run(hashes@, first, trace, opened));
    assert(blocks@.len() == first);
    assert(blocks@ =~= blocks@.take(first));
    assert(trace.last() == started);
}

/// A run that is held open asks for a demotion for the same reasons that an
/// admission does: the block that it comes to lies on disk, there is no memory
/// to read it into, and the lowest block in memory has no copy and is worth one.
pub proof fn lemma_run_demotes_for_a_reason<C: Costs>(
    store: &mut KvStore<C>,
    hashes: &[BlockHash],
    run: PinRun,
    demotion: Demotion,
    next: PinRun,
    other: u128,
)
    requires
        call_ensures(KvStore::<C>::pin_run, (store, hashes, run), PinStep::Demote(demotion, next)),
        run.reading() is None,
        next.blocks().len() == run.blocks().len(),
    ensures
        ({
            let wanted = hashes@[run.blocks().len() as int]@;
            let before = old(store).entries();
            let was = before[demotion.name()];
            let rival = before[other];
            let cheaper = {
                ||| rival.priority < was.priority
                ||| rival.priority == was.priority && rival.priority_access < was.priority_access
                ||| rival.priority == was.priority && rival.priority_access == was.priority_access
                    && other < demotion.name()
            };
            &&& before.dom().contains(wanted)
            &&& before[wanted].place matches Place::Disk(_)
            &&& old(store).tiered()
            &&& old(store).free_slots() == 0
            &&& before.dom().contains(demotion.name())
            &&& demotion.name() != wanted
            &&& was.place matches Place::Ram { backing: None, .. }
            &&& was.pins == 0
            &&& call_ensures(
                C::worth_demoting,
                (&old(store).pricing(), was.depth_tokens),
                true,
            )
            &&& demotion.payload() == old(store).contents(demotion.name())
            &&& demotion.price() == was.priority
            &&& demotion.is_leaf() <==> was.children == 0
            &&& before.dom().contains(other) && (rival.place matches Place::Ram { .. })
                && rival.children == 0 && rival.pins == 0 && other != wanted && !old(
                store).withheld().contains(other) ==> !cheaper
            &&& old(store).free_disk_slots() > 0 ==> final(store).entries() == before
        }),
{
    reveal(KvStore::is_reaching);
    reveal(KvStore::reaches);
    let first = run.blocks().len() as int;
    let before = old(store).entries();
    let name = demotion.name();
    let (started, trace, opened) = choose|
        started: KvStore<C>,
        trace: Seq<KvStore<C>>,
        opened: Seq<super::Opened>,
    |
        {
            let got = next.blocks().len() - first;
            &&& old(store).finishes_read(&started, run)
            &&& #[trigger] started.reaches_run(hashes@, first, trace, opened)
            &&& super::is_ready_part_run(opened, next.blocks(), first, got)
            &&& opened.len() == got + 1
            &&& opened.last() == super::Opened::Demote(demotion)
            &&& trace.last() == *final(store)
        };
    assert(started.reaches_run(hashes@, first, trace, opened));
    assert(started == *old(store));
    assert(opened[0] == super::Opened::Demote(demotion));
    let wanted = hashes@[first];
    assert(trace[0].reaches(&trace[1], hashes@[first + 0], opened[0]));
    assert(old(store).has_to_demote(final(store), Some(wanted), demotion));
    let passed = choose|passed: Set<u128>| #[trigger]
        old(store).chooses(passed, Some(wanted), name) && final(store).passed_over().subset_of(
            if demotion.is_leaf() {
                passed
            } else {
                passed.insert(name)
            },
        );
    assert(super::is_next_out(before, old(store).withheld(), passed, Some(wanted), name));
    if super::is_idle(before, Some(wanted), other) {
        assert(super::is_due(before, old(store).withheld(), passed, other)
            ==> !crate::evict::standing(other, before[other]).before(
            crate::evict::standing(name, before[name]),
        ));
    }
}

/// Readers are spared. Whatever a chain drives out, a block that somebody reads
/// stays where it is, with its bytes, its parent and its readers. What the store
/// was set up for stays as it was too.
pub proof fn lemma_chain_spares_readers<C: Costs>(
    store: &mut KvStore<C>,
    parent: Option<BlockHash>,
    names: &[(BlockHash, u32)],
    blocks: &[&[u8]],
    run: ChainRun,
    step: ChainStep,
    name: u128,
)
    requires
        call_ensures(KvStore::<C>::admit_chain, (store, parent, names, blocks, run), step),
        old(store).entries().dom().contains(name),
        old(store).entries()[name].pins > 0,
    ensures
        ({
            let was = old(store).entries()[name];
            let now = final(store).entries()[name];
            &&& final(store).entries().dom().contains(name)
            &&& now.place == was.place
            &&& now.parent == was.parent
            &&& now.depth_tokens == was.depth_tokens
            &&& now.pins == was.pins
            &&& final(store).contents(name) == old(store).contents(name)
        }),
        final(store).model() == old(store).model(),
        final(store).shape() == old(store).shape(),
        final(store).root() == old(store).root(),
        final(store).pricing() == old(store).pricing(),
        final(store).slots() == old(store).slots(),
        final(store).tiered() == old(store).tiered(),
        final(store).disk_slots() == old(store).disk_slots(),
{
}

/// A fetch asks for a demotion for the same reasons that a run does.
pub proof fn lemma_fetch_demotes_for_a_reason<C: Costs>(
    store: &mut KvStore<C>,
    hashes: &[BlockHash],
    run: FetchRun,
    demotion: Demotion,
    next: FetchRun,
    other: u128,
)
    requires
        call_ensures(
            KvStore::<C>::begin_fetch,
            (store, hashes, run),
            FetchStep::Demote(demotion, next),
        ),
        next.parts().len() == run.parts().len(),
        run.is_waiting() ==> old(store).entries().dom().contains(
            hashes@[run.parts().len() as int]@,
        ),
    ensures
        ({
            let wanted = hashes@[run.parts().len() as int]@;
            let before = old(store).entries();
            let was = before[demotion.name()];
            let rival = before[other];
            let cheaper = {
                ||| rival.priority < was.priority
                ||| rival.priority == was.priority && rival.priority_access < was.priority_access
                ||| rival.priority == was.priority && rival.priority_access == was.priority_access
                    && other < demotion.name()
            };
            &&& before.dom().contains(wanted)
            &&& before[wanted].place matches Place::Disk(_)
            &&& old(store).tiered()
            &&& old(store).free_slots() == 0
            &&& before.dom().contains(demotion.name())
            &&& demotion.name() != wanted
            &&& was.place matches Place::Ram { backing: None, .. }
            &&& was.pins == 0
            &&& call_ensures(
                C::worth_demoting,
                (&old(store).pricing(), was.depth_tokens),
                true,
            )
            &&& demotion.payload() == old(store).contents(demotion.name())
            &&& demotion.price() == was.priority
            &&& demotion.is_leaf() <==> was.children == 0
            &&& before.dom().contains(other) && (rival.place matches Place::Ram { .. })
                && rival.children == 0 && rival.pins == 0 && other != wanted && !old(
                store).withheld().contains(other) ==> !cheaper
            &&& old(store).free_disk_slots() > 0 ==> final(store).entries().dom() == before.dom()
        }),
{
    reveal(KvStore::is_opening);
    reveal(KvStore::opens);
    let first = run.parts().len() as int;
    let before = old(store).entries();
    let name = demotion.name();
    let (trace, opened) = choose|trace: Seq<KvStore<C>>, opened: Seq<super::Opened>|
        {
            let got = next.parts().len() - first;
            &&& #[trigger] old(store).opens_run(hashes@, first, run.is_waiting(), trace, opened)
            &&& super::is_part_run(opened, next.parts(), first, got)
            &&& opened.len() == got + 1
            &&& opened.last() == super::Opened::Demote(demotion)
            &&& trace.last() == *final(store)
        };
    assert(old(store).opens_run(hashes@, first, run.is_waiting(), trace, opened));
    assert(opened[0] == super::Opened::Demote(demotion));
    let wanted = hashes@[first];
    assert(trace[0].opens(&trace[1], hashes@[first + 0], run.is_waiting() && 0 == 0, opened[0]));
    let held = choose|held: KvStore<C>|
        {
            &&& #[trigger] old(store).is_held(&held, wanted, run.is_waiting())
            &&& held.entries()[wanted@].place is Disk
            &&& held.has_to_demote(final(store), Some(wanted), demotion)
        };
    assert(old(store).is_held(&held, wanted, run.is_waiting()));
    let passed = choose|passed: Set<u128>| #[trigger]
        held.chooses(passed, Some(wanted), name) && final(store).passed_over().subset_of(
            if demotion.is_leaf() {
                passed
            } else {
                passed.insert(name)
            },
        );
    assert(super::is_next_out(held.entries(), held.withheld(), passed, Some(wanted), name));
    assert(held.entries().dom() =~= before.dom());
    if other != wanted@ && super::is_idle(before, Some(wanted), other) {
        assert(super::is_idle(held.entries(), Some(wanted), other));
        assert(super::is_due(held.entries(), held.withheld(), passed, other)
            ==> !crate::evict::standing(other, held.entries()[other]).before(
            crate::evict::standing(name, held.entries()[name]),
        ));
    }
}

/// Memory for a block on disk is found as it is for a new one: where no slot was
/// free, the block that left memory for it was unread, was not that block, and
/// no block that nothing hangs below and that is not withheld would have gone
/// before it.
pub proof fn lemma_lowest_makes_room_for_a_read<C: Costs>(
    earlier: &KvStore<C>,
    later: &KvStore<C>,
    hash: BlockHash,
    promotion: Promotion,
    gone: u128,
    other: u128,
)
    requires
        earlier.wf(),
        later.wf(),
        earlier.sets_aside(later, hash, promotion),
    ensures
        promotion.name() == hash@,
        earlier.entries()[hash@].place == Place::Disk(promotion.source()),
        earlier.free_slots() > 0 ==> later.entries() == earlier.entries() && later.free_slots()
            == earlier.free_slots() - 1,
        left_memory(earlier.entries(), later.entries(), gone) ==> {
            let was = earlier.entries()[gone];
            let rival = earlier.entries()[other];
            &&& earlier.free_slots() == 0
            &&& gone != hash@
            &&& was.pins == 0
            &&& later.ram_inflation() >= was.priority
            &&& match was.place {
                Place::Disk(_) => false,
                Place::Ram { backing: Some(copy), .. } => {
                    &&& later.entries().dom().contains(gone)
                    &&& later.entries()[gone].place == Place::Disk(copy)
                    &&& later.contents(gone) == earlier.contents(gone)
                },
                Place::Ram { backing: None, .. } => {
                    &&& was.children == 0
                    &&& !later.entries().dom().contains(gone)
                },
            }
            &&& earlier.entries().dom().contains(other) && other != gone && (
            rival.place matches Place::Ram { .. }) && rival.children == 0 && rival.pins == 0
                && other != hash@ && !earlier.withheld().contains(other) ==> {
                ||| rival.priority > was.priority
                ||| rival.priority == was.priority && rival.priority_access > was.priority_access
                ||| rival.priority == was.priority && rival.priority_access == was.priority_access
                    && other > gone
            }
        },
{
    let before = earlier.entries();
    let after = later.entries();
    let passed = choose|passed: Set<u128>| #[trigger]
        earlier.made_way(later, after, passed, Some(hash)) && later.passed_over().subset_of(passed);
    assert(earlier.made_way(later, after, passed, Some(hash)));
    if left_memory(before, after, gone) {
        assert(earlier.free_slots() == 0);
        let victim = choose|victim: u128|
            {
                let clean = before[victim].place.copy() is Some;
                &&& #[trigger] earlier.gives_way(after, passed, Some(hash), victim)
                &&& if clean {
                    later.is_lean(victim)
                } else {
                    later.leaves_lean(before, victim)
                }
                &&& later.ram_inflation() == super::higher(
                    earlier.ram_inflation(),
                    before[victim].priority,
                )
                &&& later.counters().evicted_blocks == crate::tier::raised(
                    earlier.counters().evicted_blocks,
                    if clean {
                        0
                    } else {
                        1
                    },
                )
                &&& later.counters().demoted_blocks == crate::tier::raised(
                    earlier.counters().demoted_blocks,
                    if clean {
                        1
                    } else {
                        0
                    },
                )
            };
        assert(earlier.gives_way(after, passed, Some(hash), victim));
        assert(super::is_next_out(before, earlier.withheld(), passed, Some(hash), victim));
        assert(super::gave_way(before, after, victim));
        if before[victim].place.copy() is None {
            earlier.lemma_leaf_is_not_its_parent(victim);
        }
        assert(victim == gone);
        if super::is_idle(before, Some(hash), other) {
            assert(super::is_due(before, earlier.withheld(), passed, other)
                ==> !crate::evict::standing(other, before[other]).before(
                crate::evict::standing(gone, before[gone]),
            ));
        }
        if after.dom().contains(gone) {
            assert(earlier.carries(later, gone));
        }
    }
}

} // verus!
