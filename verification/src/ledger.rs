//! Accounts of which block owns which slot. Both tiers hand out numbered
//! slots; each slot handed out either holds one resident block or is held in
//! reserve for one that is on its way.

use vstd::prelude::*;

use crate::index::Entry;

verus! {

/// Where blocks lie in memory, by name.
pub open spec fn ram_map(entries: Map<u128, Entry>) -> Map<u128, u32> {
    Map::new(
        |name: u128| entries.dom().contains(name) && entries[name].place.slot() is Some,
        |name: u128| entries[name].place.slot().unwrap().number,
    )
}

/// Where blocks lie on disk, by name.
pub open spec fn disk_map(entries: Map<u128, Entry>) -> Map<u128, u32> {
    Map::new(
        |name: u128| entries.dom().contains(name) && entries[name].place.copy() is Some,
        |name: u128| entries[name].place.copy().unwrap().number,
    )
}

/// One tier's accounts: `at` says where each block lies and `owner` whose
/// each slot is; a slot is taken exactly if it is owned or held in reserve.
pub open spec fn tallies(
    at: Map<u128, u32>,
    owner: Map<u32, u128>,
    held: Set<u32>,
    taken: Set<u32>,
) -> bool {
    &&& forall|name: u128| #[trigger]
        at.dom().contains(name) ==> owner.dom().contains(at[name]) && owner[at[name]] == name
    &&& forall|slot: u32| #[trigger]
        owner.dom().contains(slot) ==> {
            &&& at.dom().contains(owner[slot])
            &&& at[owner[slot]] == slot
            &&& !held.contains(slot)
            &&& taken.contains(slot)
        }
    &&& forall|slot: u32| #[trigger] held.contains(slot) ==> taken.contains(slot)
    &&& forall|slot: u32| #[trigger]
        taken.contains(slot) ==> owner.dom().contains(slot) || held.contains(slot)
}

/// No two blocks share a slot, and nothing held in reserve belongs to a block.
pub proof fn lemma_slots_are_exclusive(
    at: Map<u128, u32>,
    owner: Map<u32, u128>,
    held: Set<u32>,
    taken: Set<u32>,
    a: u128,
    b: u128,
)
    requires
        tallies(at, owner, held, taken),
        at.dom().contains(a),
        at.dom().contains(b),
    ensures
        at[a] == at[b] ==> a == b,
        !held.contains(at[a]),
        taken.contains(at[a]),
{
}

/// A slot held in reserve becomes a block's.
pub proof fn lemma_settle(
    at: Map<u128, u32>,
    owner: Map<u32, u128>,
    held: Set<u32>,
    taken: Set<u32>,
    name: u128,
    slot: u32,
)
    requires
        tallies(at, owner, held, taken),
        held.contains(slot),
        !at.dom().contains(name),
    ensures
        tallies(at.insert(name, slot), owner.insert(slot, name), held.remove(slot), taken),
{
}

/// A block gives its slot up.
pub proof fn lemma_vacate(
    at: Map<u128, u32>,
    owner: Map<u32, u128>,
    held: Set<u32>,
    taken: Set<u32>,
    name: u128,
)
    requires
        tallies(at, owner, held, taken),
        at.dom().contains(name),
    ensures
        tallies(at.remove(name), owner.remove(at[name]), held, taken.remove(at[name])),
        taken.contains(at[name]),
{
}

/// A free slot is taken and held in reserve.
pub proof fn lemma_hold(
    at: Map<u128, u32>,
    owner: Map<u32, u128>,
    held: Set<u32>,
    taken: Set<u32>,
    slot: u32,
)
    requires
        tallies(at, owner, held, taken),
        !taken.contains(slot),
    ensures
        tallies(at, owner, held.insert(slot), taken.insert(slot)),
{
}

/// A slot held in reserve is given back unused.
pub proof fn lemma_let_go(
    at: Map<u128, u32>,
    owner: Map<u32, u128>,
    held: Set<u32>,
    taken: Set<u32>,
    slot: u32,
)
    requires
        tallies(at, owner, held, taken),
        held.contains(slot),
    ensures
        tallies(at, owner, held.remove(slot), taken.remove(slot)),
{
}

} // verus!
