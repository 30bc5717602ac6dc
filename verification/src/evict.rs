//! Eviction policy: which block to give up when the slab is full.
//!
//! LRU is the wrong default here because blocks are not equally expensive to
//! replace. The policy is GreedyDual-Size (Cao & Irani, 1997) with uniform
//! size, which combines recency and cost in one number:
//!
//!   on access:  H(b) = L + cost(b)
//!   on evict:   pick min H, then set L = H(victim)
//!
//! `L` is a monotone inflation clock. A block touched recently carries a high
//! `H`; one that has sat since `L` was low carries a stale low `H` and goes
//! first. Cost tilts that ordering toward keeping what is expensive to
//! rebuild.
//!
//! A priority is a positive finite number, and for those the IEEE bit pattern
//! orders exactly like the number, so it travels here as its bits.

use vstd::multiset::Multiset;
use vstd::prelude::*;

use crate::block::BlockHash;
use crate::heap::{Candidate, CandidateHeap};
use crate::index::{Entry, Index, Place};

verus! {

/// What blocks cost to rebuild and to fetch, for one model on one machine.
pub trait Costs {
    /// What a block at this depth is worth when the clock stands at
    /// `inflation`. Both priorities are the bits of positive finite numbers.
    fn priority_for(&self, inflation: u64, depth_tokens: u32) -> u64;

    /// True when a fetch beats a rebuild, so the block earns its disk slot.
    fn worth_demoting(&self, depth_tokens: u32) -> bool;
}

/// `priority` is what `costs` gave for a block of that depth at that clock.
pub open spec fn priced<C: Costs>(
    costs: C,
    inflation: u64,
    depth_tokens: u32,
    priority: u64,
) -> bool {
    call_ensures(C::priority_for, (&costs, inflation, depth_tokens), priority)
}

/// `worth` is what `costs` said of demoting a block of that depth.
pub open spec fn judged<C: Costs>(costs: C, depth_tokens: u32, worth: bool) -> bool {
    call_ensures(C::worth_demoting, (&costs, depth_tokens), worth)
}

/// Which blocks a pass over the candidates is after.
#[derive(Clone, Copy, Debug)]
pub enum Wanted {
    /// Blocks in memory.
    InRam,
    /// Blocks in memory with no copy on disk.
    Dirty,
    /// Blocks on disk only.
    OnDisk,
    /// Blocks on disk only that nothing hangs below.
    DiskLeaf,
}

impl Wanted {
    pub open spec fn matches(self, entry: Entry) -> bool {
        match self {
            Wanted::InRam => entry.place is Ram,
            Wanted::Dirty => entry.place.copy() is None,
            Wanted::OnDisk => entry.place is Disk,
            Wanted::DiskLeaf => entry.place is Disk && entry.children == 0,
        }
    }

    pub fn takes(self, entry: &Entry) -> (yes: bool)
        ensures
            yes == self.matches(*entry),
    {
        match self {
            Wanted::InRam => entry.place.is_ram(),
            Wanted::Dirty => entry.place.is_dirty(),
            Wanted::OnDisk => !entry.place.is_ram(),
            Wanted::DiskLeaf => !entry.place.is_ram() && entry.children == 0,
        }
    }
}

/// How a block stands as a candidate.
pub open spec fn standing(name: u128, entry: Entry) -> Candidate {
    Candidate { key: entry.priority, stamp: entry.priority_access, name }
}

/// Whether a candidate still says what the index says.
pub open spec fn is_fresh(entries: Map<u128, Entry>, candidate: Candidate) -> bool {
    entries.dom().contains(candidate.name) && standing(candidate.name, entries[candidate.name])
        == candidate
}

/// Whether a candidate is one of those that the pass is after.
pub open spec fn is_wanted(
    entries: Map<u128, Entry>,
    wanted: Wanted,
    candidate: Candidate,
) -> bool {
    is_fresh(entries, candidate) && wanted.matches(entries[candidate.name])
}

/// Whether the pass may take this candidate.
pub open spec fn is_eligible(
    entries: Map<u128, Entry>,
    protect: Option<BlockHash>,
    wanted: Wanted,
    candidate: Candidate,
) -> bool {
    &&& is_fresh(entries, candidate)
    &&& wanted.matches(entries[candidate.name])
    &&& entries[candidate.name].pins == 0
    &&& protect matches Some(protect) ==> protect@ != candidate.name
}

pub struct GreedyDual {
    /// `L`: the highest priority given up so far.
    inflation: u64,
    /// Candidates, min-first. Entries go stale when a block is repriced,
    /// moves to the other tier, or disappears; `select_victim` filters them
    /// at pop time rather than trying to keep the heap exact.
    heap: CandidateHeap,
}

impl View for GreedyDual {
    type V = Multiset<Candidate>;

    closed spec fn view(&self) -> Multiset<Candidate> {
        self.heap@
    }
}

impl GreedyDual {
    pub closed spec fn clock(&self) -> u64 {
        self.inflation
    }

    pub closed spec fn wf(&self) -> bool {
        self.heap.wf()
    }

    pub fn new() -> (policy: Self)
        ensures
            policy.wf(),
            policy@ == Multiset::<Candidate>::empty(),
            policy.clock() == 0,
    {
        GreedyDual { inflation: 0, heap: CandidateHeap::new() }
    }

    pub fn inflation(&self) -> (inflation: u64)
        ensures
            inflation == self.clock(),
    {
        self.inflation
    }

    /// What a block at this depth is worth right now.
    pub fn priority_for<C: Costs>(&self, costs: &C, depth_tokens: u32) -> (priority: u64)
        ensures
            priced(*costs, self.clock(), depth_tokens, priority),
            call_ensures(C::priority_for, (costs, self.clock(), depth_tokens), priority),
    {
        costs.priority_for(self.inflation, depth_tokens)
    }

    /// Offer a block as an eviction candidate at the given priority, as of
    /// the access that set it.
    pub fn offer(&mut self, hash: BlockHash, priority: u64, stamp: u64)
        requires
            old(self).wf(),
        ensures
            final(self).wf(),
            final(self).clock() == old(self).clock(),
            final(self)@ == old(self)@.insert(Candidate { key: priority, stamp, name: hash@ }),
    {
        self.heap.push(Candidate { key: priority, stamp, name: hash.name });
    }

    /// Put candidates that were set aside back.
    fn restore(&mut self, deferred: &Vec<Candidate>)
        requires
            old(self).wf(),
        ensures
            final(self).wf(),
            final(self).clock() == old(self).clock(),
            final(self)@ == old(self)@.add(deferred@.to_multiset()),
    {
        broadcast use vstd::multiset::group_multiset_properties;

        let mut i: usize = 0;
        proof {
            assert(deferred@.take(0) =~= Seq::<Candidate>::empty());
            broadcast use vstd::seq_lib::group_to_multiset_ensures;

            assert(deferred@.take(0).to_multiset().len() == 0);
            assert(self@ =~= old(self)@.add(deferred@.take(0).to_multiset()));
        }
        while i < deferred.len()
            invariant
                self.wf(),
                i <= deferred@.len(),
                self.clock() == old(self).clock(),
                self@ == old(self)@.add(deferred@.take(i as int).to_multiset()),
            decreases deferred.len() - i,
        {
            self.heap.push(deferred[i]);
            proof {
                broadcast use vstd::multiset::group_multiset_properties;

                vstd::seq_lib::to_multiset_build(deferred@.take(i as int), deferred@[i as int]);
                assert(deferred@.take(i + 1) =~= deferred@.take(i as int).push(deferred@[i as int]));
                assert(self@ =~= old(self)@.add(deferred@.take(i + 1).to_multiset()));
            }
            i = i + 1;
        }
        assert(deferred@.take(deferred@.len() as int) =~= deferred@);
    }

    /// The cheapest block worth giving up, or `None` if nothing is eligible.
    ///
    /// `protect` is the block the caller is about to attach a child to.
    /// Without it the parent -- a leaf until its child lands -- is usually the
    /// most attractive victim, and admitting would orphan its own block.
    ///
    /// The victim leaves the candidates. So do those that are stale or not
    /// wanted; what is pinned or protected keeps its place.
    pub fn select_victim(
        &mut self,
        index: &Index,
        protect: Option<BlockHash>,
        wanted: Wanted,
    ) -> (victim: Option<(BlockHash, u64)>)
        requires
            old(self).wf(),
        ensures
            final(self).wf(),
            final(self).clock() == old(self).clock(),
            final(self)@.subset_of(old(self)@),
            match victim {
                Some((hash, priority)) => {
                    let chosen = standing(hash@, index@[hash@]);
                    &&& is_eligible(index@, protect, wanted, chosen)
                    &&& old(self)@.contains(chosen)
                    &&& priority == chosen.key
                    &&& forall|other: Candidate|
                        old(self)@.contains(other) && #[trigger] is_eligible(
                            index@,
                            protect,
                            wanted,
                            other,
                        ) ==> !other.before(chosen)
                    &&& final(self)@.count(chosen) + 1 == old(self)@.count(chosen)
                    &&& final(self)@.len() < old(self)@.len()
                    &&& forall|other: Candidate|
                        other != chosen ==> #[trigger] final(self)@.count(other) == (
                        if other.before(chosen) && !is_wanted(index@, wanted, other) {
                            0
                        } else {
                            old(self)@.count(other)
                        })
                },
                None => {
                    &&& forall|other: Candidate|
                        old(self)@.contains(other) ==> !#[trigger] is_eligible(
                            index@,
                            protect,
                            wanted,
                            other,
                        )
                    &&& forall|other: Candidate| #[trigger]
                        final(self)@.count(other) == (if is_wanted(index@, wanted, other) {
                            old(self)@.count(other)
                        } else {
                            0
                        })
                },
            },
    {
        broadcast use vstd::multiset::group_multiset_properties;

        let mut deferred: Vec<Candidate> = Vec::new();
        let mut victim: Option<(BlockHash, u64)> = None;
        let ghost mut dropped = Multiset::<Candidate>::empty();
        let ghost mut chosen: Option<Candidate> = None;
        proof {
            broadcast use vstd::seq_lib::group_to_multiset_ensures;

            assert(deferred@.to_multiset().len() == 0);
            assert(deferred@.to_multiset() =~= Multiset::<Candidate>::empty());
            assert(old(self)@ =~= self@.add(deferred@.to_multiset()).add(dropped));
        }
        loop
            invariant_except_break
                victim is None,
                chosen is None,
            invariant
                self.wf(),
                self.clock() == old(self).clock(),
                old(self)@ == self@.add(deferred@.to_multiset()).add(dropped),
                forall|other: Candidate|
                    deferred@.to_multiset().contains(other) ==> #[trigger] is_wanted(
                        index@,
                        wanted,
                        other,
                    ) && !is_eligible(index@, protect, wanted, other),
                forall|other: Candidate|
                    dropped.contains(other) && Some(other) != chosen ==> !#[trigger] is_wanted(
                        index@,
                        wanted,
                        other,
                    ),
                // What is still in the heap comes after everything taken out.
                forall|other: Candidate, taken: Candidate|
                    self@.contains(other) && dropped.contains(taken) ==> !#[trigger] other.before(
                        taken,
                    ),
            ensures
                match victim {
                    Some((hash, priority)) => {
                        &&& chosen == Some(standing(hash@, index@[hash@]))
                        &&& dropped.count(standing(hash@, index@[hash@])) == 1
                        &&& forall|other: Candidate|
                            dropped.contains(other) && other != standing(hash@, index@[hash@])
                                ==> #[trigger] other.before(standing(hash@, index@[hash@]))
                        &&& is_eligible(index@, protect, wanted, standing(hash@, index@[hash@]))
                        &&& old(self)@.contains(standing(hash@, index@[hash@]))
                        &&& priority == index@[hash@].priority
                        &&& forall|other: Candidate|
                            old(self)@.contains(other) && #[trigger] is_eligible(
                                index@,
                                protect,
                                wanted,
                                other,
                            ) ==> !other.before(standing(hash@, index@[hash@]))
                    },
                    None => chosen is None && self@ == Multiset::<Candidate>::empty(),
                },
            decreases self@.len(),
        {
            let ghost before = self@;
            let candidate: Candidate = match self.heap.pop() {
                None => {
                    break;
                },
                Some(candidate) => candidate,
            };
            let hash = BlockHash { name: candidate.name };
            let entry: Entry = match index.get(hash) {
                None => {
                    // Already gone.
                    proof {
                        dropped = dropped.insert(candidate);
                        assert(old(self)@ =~= self@.add(deferred@.to_multiset()).add(dropped));
                    }
                    continue;
                },
                Some(entry) => *entry,
            };
            if entry.priority != candidate.key || entry.priority_access != candidate.stamp
                || !wanted.takes(&entry) {
                // Repriced since, or not what the pass is after.
                proof {
                    dropped = dropped.insert(candidate);
                    assert(old(self)@ =~= self@.add(deferred@.to_multiset()).add(dropped));
                }
                continue;
            }
            let protected = match protect {
                Some(protect) => protect.name == candidate.name,
                None => false,
            };
            if protected || entry.pins > 0 {
                proof {
                    vstd::seq_lib::to_multiset_build(deferred@, candidate);
                }
                let ghost aside = deferred@.to_multiset();
                deferred.push(candidate);
                proof {
                    assert(deferred@.to_multiset() =~= aside.insert(candidate));
                    assert forall|other: Candidate|
                        deferred@.to_multiset().contains(other) implies #[trigger] is_wanted(
                        index@,
                        wanted,
                        other,
                    ) && !is_eligible(index@, protect, wanted, other) by {
                        if other != candidate {
                            assert(aside.contains(other));
                        }
                    }
                    assert(old(self)@ =~= self@.add(deferred@.to_multiset()).add(dropped));
                }
                continue;
            }
            victim = Some((hash, entry.priority));
            proof {
                chosen = Some(candidate);
                assert forall|other: Candidate|
                    old(self)@.contains(other) && #[trigger] is_eligible(
                        index@,
                        protect,
                        wanted,
                        other,
                    ) implies !other.before(candidate) by {
                    assert(is_wanted(index@, wanted, other));
                    assert(!deferred@.to_multiset().contains(other));
                    assert(!dropped.contains(other));
                    assert(before.contains(other));
                }
                assert(is_wanted(index@, wanted, candidate));
                assert forall|other: Candidate| dropped.contains(other) implies #[trigger] other.before(
                    candidate,
                ) by {
                    assert(!is_wanted(index@, wanted, other));
                    assert(!candidate.before(other));
                }
                dropped = dropped.insert(candidate);
                assert(old(self)@ =~= self@.add(deferred@.to_multiset()).add(dropped));
            }
            break;
        }
        let ghost left = self@;
        self.restore(&deferred);
        proof {
            assert forall|other: Candidate| Some(other) != chosen implies #[trigger] self@.count(
                other,
            ) == (if is_wanted(index@, wanted, other) || (victim is Some && !other.before(
                chosen->0,
            )) {
                old(self)@.count(other)
            } else {
                0
            }) by {
                if is_wanted(index@, wanted, other) {
                    assert(!dropped.contains(other));
                } else {
                    assert(!deferred@.to_multiset().contains(other));
                    if victim is Some {
                        assert(left.contains(other) ==> !other.before(chosen->0));
                        assert(dropped.contains(other) ==> other.before(chosen->0));
                    }
                }
            }
        }
        victim
    }

    /// Up to `max` blocks the policy would give up next, cheapest first.
    /// Stale candidates leave; the others keep their places.
    pub fn peek_victims(&mut self, index: &Index, max: usize, wanted: Wanted) -> (names: Vec<
        BlockHash,
    >)
        requires
            old(self).wf(),
        ensures
            final(self).wf(),
            final(self).clock() == old(self).clock(),
            final(self)@.subset_of(old(self)@),
            forall|other: Candidate| #[trigger]
                final(self)@.count(other) == (if is_fresh(index@, other) || (names@.len() == max
                    && (max == 0 || !other.before(
                    standing(names@.last()@, index@[names@.last()@]),
                ))) {
                    old(self)@.count(other)
                } else {
                    0
                }),
            names@.len() <= max,
            forall|i: int|
                0 <= i < names@.len() ==> {
                    let chosen = standing((#[trigger] names@[i])@, index@[names@[i]@]);
                    &&& is_eligible(index@, None, wanted, chosen)
                    &&& old(self)@.contains(chosen)
                },
            forall|i: int, j: int|
                0 <= i < j < names@.len() ==> {
                    &&& (#[trigger] names@[i])@ != (#[trigger] names@[j])@
                    &&& standing(names@[i]@, index@[names@[i]@]).before(
                        standing(names@[j]@, index@[names@[j]@]),
                    )
                },
            forall|other: Candidate|
                old(self)@.contains(other) && #[trigger] is_eligible(index@, None, wanted, other)
                    ==> {
                    ||| exists|i: int| 0 <= i < names@.len() && (#[trigger] names@[i])@ == other.name
                    ||| {
                        &&& names@.len() == max
                        &&& forall|i: int|
                            0 <= i < names@.len() ==> standing(
                                (#[trigger] names@[i])@,
                                index@[names@[i]@],
                            ).before(other)
                    }
                },
    {
        broadcast use vstd::multiset::group_multiset_properties;

        let mut deferred: Vec<Candidate> = Vec::new();
        let mut names: Vec<BlockHash> = Vec::new();
        let ghost mut dropped = Multiset::<Candidate>::empty();
        proof {
            broadcast use vstd::seq_lib::group_to_multiset_ensures;

            assert(deferred@.to_multiset().len() == 0);
            assert(deferred@.to_multiset() =~= Multiset::<Candidate>::empty());
            assert(old(self)@ =~= self@.add(deferred@.to_multiset()).add(dropped));
        }
        loop
            invariant
                self.wf(),
                self.clock() == old(self).clock(),
                old(self)@ == self@.add(deferred@.to_multiset()).add(dropped),
                forall|other: Candidate|
                    dropped.contains(other) ==> !#[trigger] is_fresh(index@, other),
                forall|other: Candidate|
                    deferred@.to_multiset().contains(other) ==> #[trigger] is_fresh(index@, other),
                forall|other: Candidate, taken: Candidate|
                    self@.contains(other) && dropped.contains(taken) ==> !#[trigger] other.before(
                        taken,
                    ),
                names@.len() == max ==> max == 0 && dropped == Multiset::<Candidate>::empty() || {
                    &&& max > 0
                    &&& forall|other: Candidate|
                        dropped.contains(other) ==> #[trigger] other.before(
                            standing(names@.last()@, index@[names@.last()@]),
                        )
                },
                names@.len() <= max,
                forall|i: int|
                    0 <= i < names@.len() ==> {
                        let chosen = standing((#[trigger] names@[i])@, index@[names@[i]@]);
                        &&& is_eligible(index@, None, wanted, chosen)
                        &&& old(self)@.contains(chosen)
                    },
                forall|i: int, j: int|
                    0 <= i < j < names@.len() ==> {
                        &&& (#[trigger] names@[i])@ != (#[trigger] names@[j])@
                        &&& standing(names@[i]@, index@[names@[i]@]).before(
                            standing(names@[j]@, index@[names@[j]@]),
                        )
                    },
                // What is still in the heap comes after everything taken so far.
                forall|i: int, other: Candidate|
                    0 <= i < names@.len() && self@.contains(other) ==> !#[trigger] other.before(
                        standing((#[trigger] names@[i])@, index@[names@[i]@]),
                    ),
                forall|other: Candidate|
                    deferred@.to_multiset().contains(other) && #[trigger] is_eligible(
                        index@,
                        None,
                        wanted,
                        other,
                    ) ==> exists|i: int|
                        0 <= i < names@.len() && (#[trigger] names@[i])@ == other.name,
            ensures
                names@.len() == max || self@ == Multiset::<Candidate>::empty(),
            decreases self@.len(),
        {
            if names.len() >= max {
                break;
            }
            let ghost before = self@;
            let candidate: Candidate = match self.heap.pop() {
                None => {
                    break;
                },
                Some(candidate) => candidate,
            };
            let hash = BlockHash { name: candidate.name };
            let entry: Entry = match index.get(hash) {
                None => {
                    proof {
                        dropped = dropped.insert(candidate);
                        assert(old(self)@ =~= self@.add(deferred@.to_multiset()).add(dropped));
                    }
                    continue;
                },
                Some(entry) => *entry,
            };
            if entry.priority != candidate.key || entry.priority_access != candidate.stamp {
                proof {
                    dropped = dropped.insert(candidate);
                    assert(old(self)@ =~= self@.add(deferred@.to_multiset()).add(dropped));
                }
                continue;
            }
            proof {
                vstd::seq_lib::to_multiset_build(deferred@, candidate);
            }
            let ghost aside = deferred@.to_multiset();
            deferred.push(candidate);
            proof {
                assert(deferred@.to_multiset() =~= aside.insert(candidate));
                assert forall|other: Candidate|
                    deferred@.to_multiset().contains(other) implies #[trigger] is_fresh(
                    index@,
                    other,
                ) by {
                    if other != candidate {
                        assert(aside.contains(other));
                    }
                }
                assert forall|other: Candidate| dropped.contains(other) implies #[trigger] other.before(
                    candidate,
                ) by {
                    assert(!is_fresh(index@, other));
                    assert(!candidate.before(other));
                }
                assert(old(self)@ =~= self@.add(deferred@.to_multiset()).add(dropped));
            }
            // The same offer may have been made twice; its copies come out in
            // a row.
            let repeated = names.len() > 0 && names[names.len() - 1].name == candidate.name;
            if wanted.takes(&entry) && entry.pins == 0 && !repeated {
                let ghost taken = names@;
                proof {
                    assert forall|i: int| 0 <= i < taken.len() implies {
                        &&& (#[trigger] taken[i])@ != candidate.name
                        &&& standing(taken[i]@, index@[taken[i]@]).before(candidate)
                    } by {
                        let earlier = standing(taken[i]@, index@[taken[i]@]);
                        assert(before.contains(candidate));
                        assert(!candidate.before(earlier));
                        if earlier == candidate {
                            let last = standing(taken.last()@, index@[taken.last()@]);
                            if i < taken.len() - 1 {
                                assert(taken[taken.len() - 1] == taken.last());
                                assert(earlier.before(last));
                                assert(!candidate.before(last));
                            }
                            assert(false);
                        }
                    }
                }
                names.push(hash);
                proof {
                    assert(standing(hash@, index@[hash@]) == candidate);
                    assert(names@[taken.len() as int]@ == candidate.name);
                    assert forall|other: Candidate|
                        deferred@.to_multiset().contains(other) && #[trigger] is_eligible(
                            index@,
                            None,
                            wanted,
                            other,
                        ) implies exists|i: int|
                        0 <= i < names@.len() && (#[trigger] names@[i])@ == other.name by {
                        if other != candidate {
                            let i = choose|i: int|
                                0 <= i < taken.len() && (#[trigger] taken[i])@ == other.name;
                            assert(names@[i]@ == other.name);
                        }
                    }
                    assert forall|i: int, other: Candidate|
                        0 <= i < names@.len() && self@.contains(other) implies !#[trigger] other.before(
                        standing((#[trigger] names@[i])@, index@[names@[i]@])) by {
                        assert(before.contains(other));
                        if i < taken.len() {
                            assert(names@[i] == taken[i]);
                        }
                    }
                }
            } else {
                proof {
                    assert forall|other: Candidate|
                        deferred@.to_multiset().contains(other) && #[trigger] is_eligible(
                            index@,
                            None,
                            wanted,
                            other,
                        ) implies exists|i: int|
                        0 <= i < names@.len() && (#[trigger] names@[i])@ == other.name by {
                        if other == candidate {
                            assert(names@[names@.len() - 1]@ == other.name);
                        }
                    }
                }
            }
        }
        let ghost left = self@;
        self.restore(&deferred);
        proof {
            assert forall|other: Candidate| #[trigger]
                self@.count(other) == (if is_fresh(index@, other) || (names@.len() == max && (max
                    == 0 || !other.before(standing(names@.last()@, index@[names@.last()@])))) {
                    old(self)@.count(other)
                } else {
                    0
                }) by {
                if is_fresh(index@, other) {
                    assert(!dropped.contains(other));
                } else {
                    assert(!deferred@.to_multiset().contains(other));
                    if names@.len() == max && max > 0 {
                        let last = standing(names@.last()@, index@[names@.last()@]);
                        assert(names@[max - 1] == names@.last());
                        assert(left.contains(other) ==> !other.before(last));
                        assert(dropped.contains(other) ==> other.before(last));
                    }
                }
            }
            assert forall|other: Candidate|
                old(self)@.contains(other) && #[trigger] is_eligible(index@, None, wanted, other)
                    && !(exists|i: int|
                    0 <= i < names@.len() && (#[trigger] names@[i])@ == other.name) implies {
                &&& names@.len() == max
                &&& forall|i: int|
                    0 <= i < names@.len() ==> standing(
                        (#[trigger] names@[i])@,
                        index@[names@[i]@],
                    ).before(other)
            } by {
                assert(!dropped.contains(other));
                assert(left.contains(other));
                assert forall|i: int| 0 <= i < names@.len() implies standing(
                    (#[trigger] names@[i])@,
                    index@[names@[i]@],
                ).before(other) by {
                    assert(!other.before(standing(names@[i]@, index@[names@[i]@])));
                }
            }
            assert forall|other: Candidate| #[trigger]
                is_fresh(index@, other) implies self@.count(other) == old(self)@.count(other) by {
                assert(!dropped.contains(other));
            }
        }
        names
    }

    /// Record that `priority` was the cost of the block we gave up. The clock
    /// never runs backwards.
    pub fn note_eviction(&mut self, priority: u64)
        requires
            old(self).wf(),
        ensures
            final(self).wf(),
            final(self)@ == old(self)@,
            final(self).clock() == (if priority > old(self).clock() {
                priority
            } else {
                old(self).clock()
            }),
    {
        if priority > self.inflation {
            self.inflation = priority;
        }
    }

    pub fn candidates(&self) -> (count: usize)
        ensures
            count == self@.len(),
    {
        self.heap.len()
    }

    /// Every access pushes a fresh candidate and strands the old one, so a
    /// hot block leaves a trail. Rebuild from the index once the stale
    /// entries outnumber the real ones.
    pub fn should_compact(&self, resident_blocks: usize) -> (crowded: bool)
        ensures
            crowded == is_crowded(self@.len(), resident_blocks as nat),
    {
        let resident: u128 = if resident_blocks > 1 {
            resident_blocks as u128
        } else {
            1
        };
        self.heap.len() > 64 && self.heap.len() as u128 > 4 * resident
    }

    /// Start over with one candidate for each wanted block.
    pub fn compact(&mut self, index: &Index, wanted: Wanted)
        requires
            old(self).wf(),
        ensures
            final(self).wf(),
            final(self).clock() == old(self).clock(),
            final(self)@.len() <= index@.len(),
            forall|candidate: Candidate| #[trigger]
                final(self)@.count(candidate) == (if is_fresh(index@, candidate)
                    && wanted.matches(index@[candidate.name]) {
                    1nat
                } else {
                    0nat
                }),
    {
        broadcast use vstd::multiset::group_multiset_properties;

        self.heap.clear();
        let names = index.names();
        let mut i: usize = 0;
        while i < names.len()
            invariant
                self.wf(),
                self.clock() == old(self).clock(),
                i <= names@.len(),
                names@.len() == index@.len(),
                self@.len() <= i,
                forall|i: int, j: int|
                    0 <= i < names@.len() && 0 <= j < names@.len() && i != j ==> (
                    #[trigger] names@[i])@ != (#[trigger] names@[j])@,
                forall|i: int|
                    0 <= i < names@.len() ==> index@.dom().contains((#[trigger] names@[i])@),
                forall|n: int, candidate: Candidate|
                    0 <= n < i && (#[trigger] names@[n])@ == candidate.name ==> (
                    #[trigger] self@.count(candidate)) == (if is_fresh(index@, candidate)
                        && wanted.matches(index@[candidate.name]) {
                        1nat
                    } else {
                        0nat
                    }),
                forall|candidate: Candidate|
                    (forall|n: int| 0 <= n < i ==> (#[trigger] names@[n])@ != candidate.name)
                        ==> #[trigger] self@.count(candidate) == 0,
            decreases names.len() - i,
        {
            let hash: BlockHash = names[i];
            let ghost before = self@;
            if let Some(entry) = index.get(hash) {
                if wanted.takes(entry) {
                    self.heap.push(
                        Candidate {
                            key: entry.priority,
                            stamp: entry.priority_access,
                            name: hash.name,
                        },
                    );
                }
            }
            proof {
                let mine = standing(hash@, index@[hash@]);
                assert forall|n: int, candidate: Candidate|
                    0 <= n < i + 1 && (#[trigger] names@[n])@ == candidate.name implies (
                #[trigger] self@.count(candidate)) == (if is_fresh(index@, candidate)
                    && wanted.matches(index@[candidate.name]) {
                    1nat
                } else {
                    0nat
                }) by {
                    if n == i {
                        assert(forall|m: int| 0 <= m < i ==> (#[trigger] names@[m])@ != names@[n]@);
                        assert(before.count(candidate) == 0);
                    } else {
                        assert(before.count(candidate) == self@.count(candidate));
                    }
                }
                assert forall|candidate: Candidate|
                    (forall|n: int| 0 <= n < i + 1 ==> (#[trigger] names@[n])@ != candidate.name)
                        implies #[trigger] self@.count(candidate) == 0 by {
                    assert(names@[i as int]@ != candidate.name);
                    assert(before.count(candidate) == 0);
                }
            }
            i = i + 1;
        }
        proof {
            assert forall|candidate: Candidate| #[trigger]
                self@.count(candidate) == (if is_fresh(index@, candidate) && wanted.matches(
                    index@[candidate.name],
                ) {
                    1nat
                } else {
                    0nat
                }) by {
                if index@.dom().contains(candidate.name) {
                    let n = choose|n: int|
                        0 <= n < names@.len() && (#[trigger] names@[n])@ == candidate.name;
                    assert(names@[n]@ == candidate.name);
                }
            }
        }
    }
}

/// More candidates than the resident blocks can account for.
pub open spec fn is_crowded(candidates: nat, resident: nat) -> bool {
    candidates > 64 && candidates > 4 * (if resident > 1 {
        resident
    } else {
        1
    })
}

impl Default for GreedyDual {
    fn default() -> (policy: Self)
        ensures
            policy.wf(),
            policy@ == Multiset::<Candidate>::empty(),
            policy.clock() == 0,
    {
        Self::new()
    }
}

/// A block is worth what its cost comes to on top of the clock: the costs are
/// asked at the clock itself, whatever it stands at.
pub proof fn lemma_worth_counts_from_the_clock<C: Costs>(
    policy: &GreedyDual,
    costs: &C,
    depth_tokens: u32,
    priority: u64,
)
    requires
        call_ensures(GreedyDual::priority_for::<C>, (policy, costs, depth_tokens), priority),
    ensures
        call_ensures(C::priority_for, (costs, policy.clock(), depth_tokens), priority),
{
}

/// The clock rises to what was given up and never falls. So where costs only
/// ever add to the clock, a block that is priced after another was given up
/// stands no lower than that one did: nothing lasts for ever just for having
/// been expensive once.
pub proof fn lemma_newcomers_catch_up<C: Costs>(
    policy: &mut GreedyDual,
    given_up: u64,
    later: &GreedyDual,
    costs: &C,
    depth_tokens: u32,
    priority: u64,
)
    requires
        call_ensures(GreedyDual::note_eviction, (policy, given_up), ()),
        later.clock() >= final(policy).clock(),
        call_ensures(GreedyDual::priority_for::<C>, (later, costs, depth_tokens), priority),
        forall|clock: u64, worth: u64| #[trigger]
            call_ensures(C::priority_for, (costs, clock, depth_tokens), worth) ==> worth >= clock,
    ensures
        priority >= given_up,
        final(policy).clock() >= given_up,
        final(policy).clock() >= old(policy).clock(),
        final(policy).clock() == given_up || final(policy).clock() == old(policy).clock(),
        final(policy)@ == old(policy)@,
{
}

/// What a pass is after: blocks in memory, those of them that are nowhere on
/// disk, blocks on disk only, or those of them that nothing hangs below.
pub proof fn lemma_wanted_says_where(wanted: Wanted, entry: &Entry, yes: bool)
    requires
        call_ensures(Wanted::takes, (wanted, entry), yes),
    ensures
        yes <==> match wanted {
            Wanted::InRam => entry.place matches Place::Ram { .. },
            Wanted::Dirty => entry.place matches Place::Ram { backing: None, .. },
            Wanted::OnDisk => entry.place matches Place::Disk(_),
            Wanted::DiskLeaf => entry.place matches Place::Disk(_) && entry.children == 0,
        },
{
}

/// The block that is given up is the cheapest: nobody reads it, it is not the
/// protected one, it lies where the pass looks, and every other candidate of
/// which all that holds has a higher priority, or the same as of a later use,
/// or failing that a higher name.
pub proof fn lemma_cheapest_goes_first(
    policy: &mut GreedyDual,
    index: &Index,
    protect: Option<BlockHash>,
    wanted: Wanted,
    victim: Option<(BlockHash, u64)>,
    other: u128,
)
    requires
        call_ensures(GreedyDual::select_victim, (policy, index, protect, wanted), victim),
    ensures
        ({
            let entry = index@[other];
            let offered = Candidate {
                key: entry.priority,
                stamp: entry.priority_access,
                name: other,
            };
            let placed = match wanted {
                Wanted::InRam => entry.place matches Place::Ram { .. },
                Wanted::Dirty => entry.place matches Place::Ram { backing: None, .. },
                Wanted::OnDisk => entry.place matches Place::Disk(_),
                Wanted::DiskLeaf => entry.place matches Place::Disk(_) && entry.children == 0,
            };
            let eligible = index@.dom().contains(other) && old(policy)@.contains(offered)
                && entry.pins == 0 && protect != Some(BlockHash { name: other }) && placed;
            match victim {
                None => !eligible,
                Some((hash, priority)) => {
                    let chosen = index@[hash@];
                    &&& index@.dom().contains(hash@)
                    &&& priority == chosen.priority
                    &&& other == hash@ ==> eligible
                    &&& eligible && other != hash@ ==> {
                        ||| entry.priority > priority
                        ||| entry.priority == priority && entry.priority_access
                            > chosen.priority_access
                        ||| entry.priority == priority && entry.priority_access
                            == chosen.priority_access && other > hash@
                    }
                },
            }
        }),
        final(policy).clock() == old(policy).clock(),
{
    let entry = index@[other];
    let offered = Candidate { key: entry.priority, stamp: entry.priority_access, name: other };
    assert(is_eligible(index@, protect, wanted, offered) <==> {
        let placed = match wanted {
            Wanted::InRam => entry.place matches Place::Ram { .. },
            Wanted::Dirty => entry.place matches Place::Ram { backing: None, .. },
            Wanted::OnDisk => entry.place matches Place::Disk(_),
            Wanted::DiskLeaf => entry.place matches Place::Disk(_) && entry.children == 0,
        };
        &&& index@.dom().contains(other)
        &&& entry.pins == 0
        &&& protect != Some(BlockHash { name: other })
        &&& placed
    });
}

/// A block that could have been given up and was not stays a candidate as it
/// stands; only the victim and what is no candidate any more are gone.
pub proof fn lemma_candidates_keep_their_places(
    policy: &mut GreedyDual,
    index: &Index,
    protect: Option<BlockHash>,
    wanted: Wanted,
    victim: Option<(BlockHash, u64)>,
    other: u128,
)
    requires
        call_ensures(GreedyDual::select_victim, (policy, index, protect, wanted), victim),
        index@.dom().contains(other),
        match wanted {
            Wanted::InRam => index@[other].place matches Place::Ram { .. },
            Wanted::Dirty => index@[other].place matches Place::Ram { backing: None, .. },
            Wanted::OnDisk => index@[other].place matches Place::Disk(_),
            Wanted::DiskLeaf => index@[other].place matches Place::Disk(_) && index@[other].children
                == 0,
        },
        victim matches Some((hash, _)) ==> hash@ != other,
    ensures
        ({
            let offered = Candidate {
                key: index@[other].priority,
                stamp: index@[other].priority_access,
                name: other,
            };
            final(policy)@.count(offered) == old(policy)@.count(offered)
        }),
{
    let offered = Candidate {
        key: index@[other].priority,
        stamp: index@[other].priority_access,
        name: other,
    };
    assert(is_wanted(index@, wanted, offered));
}

/// What the policy would give up next are the cheapest candidates, cheapest
/// first: each is unread and lies where the pass looks, and every other such
/// candidate comes after all of them, unless there was no more to be had.
pub proof fn lemma_next_victims_are_the_cheapest(
    policy: &mut GreedyDual,
    index: &Index,
    max: usize,
    wanted: Wanted,
    names: Vec<BlockHash>,
    i: int,
    j: int,
    other: u128,
)
    requires
        call_ensures(GreedyDual::peek_victims, (policy, index, max, wanted), names),
        0 <= i < names@.len(),
        0 <= j < names@.len(),
    ensures
        names@.len() <= max,
        ({
            let a = index@[names@[i]@];
            let b = index@[names@[j]@];
            &&& index@.dom().contains(names@[i]@)
            &&& a.pins == 0
            &&& match wanted {
                Wanted::InRam => a.place matches Place::Ram { .. },
                Wanted::Dirty => a.place matches Place::Ram { backing: None, .. },
                Wanted::OnDisk => a.place matches Place::Disk(_),
                Wanted::DiskLeaf => a.place matches Place::Disk(_) && a.children == 0,
            }
            &&& i < j ==> names@[i] != names@[j] && (a.priority < b.priority || (a.priority
                == b.priority && a.priority_access <= b.priority_access))
        }),
        ({
            let entry = index@[other];
            let offered = Candidate {
                key: entry.priority,
                stamp: entry.priority_access,
                name: other,
            };
            let placed = match wanted {
                Wanted::InRam => entry.place matches Place::Ram { .. },
                Wanted::Dirty => entry.place matches Place::Ram { backing: None, .. },
                Wanted::OnDisk => entry.place matches Place::Disk(_),
                Wanted::DiskLeaf => entry.place matches Place::Disk(_) && entry.children == 0,
            };
            let a = index@[names@[i]@];
            index@.dom().contains(other) && old(policy)@.contains(offered) && entry.pins == 0
                && placed ==> {
                ||| exists|k: int| 0 <= k < names@.len() && (#[trigger] names@[k])@ == other
                ||| names@.len() == max && (a.priority < entry.priority || (a.priority
                    == entry.priority && a.priority_access <= entry.priority_access))
            }
        }),
{
    let entry = index@[other];
    let offered = Candidate { key: entry.priority, stamp: entry.priority_access, name: other };
    assert(is_eligible(index@, None, wanted, offered) <==> {
        let placed = match wanted {
            Wanted::InRam => entry.place matches Place::Ram { .. },
            Wanted::Dirty => entry.place matches Place::Ram { backing: None, .. },
            Wanted::OnDisk => entry.place matches Place::Disk(_),
            Wanted::DiskLeaf => entry.place matches Place::Disk(_) && entry.children == 0,
        };
        &&& index@.dom().contains(other)
        &&& entry.pins == 0
        &&& placed
    });
    assert(standing(names@[i]@, index@[names@[i]@]).key == index@[names@[i]@].priority);
    assert(standing(names@[j]@, index@[names@[j]@]).key == index@[names@[j]@].priority);
}

/// Candidates are gone through once there are more than 64 of them and more
/// than four for each resident block; what is left then is one for each block
/// that the policy is there for, as it stands.
pub proof fn lemma_candidates_do_not_pile_up(
    policy: &GreedyDual,
    resident: usize,
    crowded: bool,
    before: &mut GreedyDual,
    index: &Index,
    wanted: Wanted,
    name: u128,
)
    requires
        call_ensures(GreedyDual::should_compact, (policy, resident), crowded),
        call_ensures(GreedyDual::compact, (before, index, wanted), ()),
    ensures
        crowded <==> policy@.len() > 64 && policy@.len() > 4 && policy@.len() > 4 * resident,
        final(before)@.len() <= index@.len(),
        final(before).clock() == old(before).clock(),
        ({
            let entry = index@[name];
            let offered = Candidate {
                key: entry.priority,
                stamp: entry.priority_access,
                name,
            };
            let placed = match wanted {
                Wanted::InRam => entry.place matches Place::Ram { .. },
                Wanted::Dirty => entry.place matches Place::Ram { backing: None, .. },
                Wanted::OnDisk => entry.place matches Place::Disk(_),
                Wanted::DiskLeaf => entry.place matches Place::Disk(_) && entry.children == 0,
            };
            final(before)@.count(offered) == (if index@.dom().contains(name) && placed {
                1nat
            } else {
                0nat
            })
        }),
{
    let entry = index@[name];
    let offered = Candidate { key: entry.priority, stamp: entry.priority_access, name };
    assert(final(before)@.count(offered) == (if is_fresh(index@, offered) && wanted.matches(
        index@[name],
    ) {
        1nat
    } else {
        0nat
    }));
}

/// A block that is offered is a candidate at just that priority, as of just
/// that use, and no other candidate is touched.
pub proof fn lemma_offers_are_kept(
    policy: &mut GreedyDual,
    hash: BlockHash,
    priority: u64,
    stamp: u64,
    other: Candidate,
)
    requires
        call_ensures(GreedyDual::offer, (policy, hash, priority, stamp), ()),
    ensures
        final(policy)@.count(other) == old(policy)@.count(other) + (if other.key == priority
            && other.stamp == stamp && other.name == hash@ {
            1int
        } else {
            0
        }),
        final(policy).clock() == old(policy).clock(),
{
    broadcast use vstd::multiset::group_multiset_properties;

}

/// Of two candidates the one with the lower priority goes first; at the same
/// priority the one that was used longer ago, and then the one with the lower
/// name. So of two different ones exactly one goes first.
pub proof fn lemma_candidates_are_ranked(a: Candidate, b: Candidate, yes: bool, no: bool)
    requires
        call_ensures(Candidate::goes_before, (&a, &b), yes),
        call_ensures(Candidate::goes_before, (&b, &a), no),
    ensures
        a.key < b.key ==> yes,
        a.key == b.key && a.stamp < b.stamp ==> yes,
        a.key == b.key && a.stamp == b.stamp && a.name < b.name ==> yes,
        a != b ==> yes == !no,
        a == b ==> !yes,
{
}

} // verus!
