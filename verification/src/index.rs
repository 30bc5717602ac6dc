//! Block name -> location. Prefix-chained names give a radix tree over token
//! sequences for free: probe block 0, block 1, ... and stop at the first
//! miss; the depth reached is the hit length.
//!
//! The parent link and child count exist for one invariant ordinary caches
//! lack: a block is useless without every block before it, since attention
//! over token 5000 reads the KV of tokens 0..5000. So we insert only when the
//! parent is resident, and remove only leaves.

use std::collections::HashMap;
use vstd::prelude::*;

use crate::block::BlockHash;
use crate::slab::SlotId;
use crate::tier::DiskSlot;

verus! {

/// One more byte goes into a hash: what was there moves up by eight bits,
/// around the top, and the byte is mixed in at the bottom.
pub open spec fn absorbed(state: u64, bytes: Seq<u8>) -> u64
    decreases bytes.len(),
{
    if bytes.len() == 0 {
        state
    } else {
        let before = absorbed(state, bytes.drop_last());
        ((before << 8u64) | (before >> 56u64)) ^ (bytes.last() as u64)
    }
}

/// Passes a `BlockHash`'s bucket key straight through, for tables keyed by
/// names: the keys are already BLAKE3 digests, so another pass over them would
/// add no randomness. `Index` itself keeps the map's default hasher, which is
/// the one that vstd specifies.
#[derive(Clone, Copy, Debug)]
pub struct IdentityHasher {
    state: u64,
}

impl IdentityHasher {
    /// The key so far.
    pub closed spec fn key(&self) -> u64 {
        self.state
    }
}

impl Default for IdentityHasher {
    fn default() -> (hasher: Self)
        ensures
            hasher.key() == 0,
    {
        IdentityHasher { state: 0 }
    }
}

impl std::hash::Hasher for IdentityHasher {
    fn finish(&self) -> (key: u64)
        ensures
            key == self.key(),
    {
        self.state
    }

    fn write_u64(&mut self, value: u64)
        ensures
            final(self).key() == value,
    {
        self.state = value;
    }

    /// Only reached with other key types; degrades rather than panicking.
    fn write(&mut self, bytes: &[u8])
        ensures
            final(self).key() == absorbed(old(self).key(), bytes@),
    {
        let mut i: usize = 0;
        assert(bytes@.take(0) =~= Seq::<u8>::empty());
        while i < bytes.len()
            invariant
                i <= bytes@.len(),
                self.state == absorbed(old(self).key(), bytes@.take(i as int)),
            decreases bytes.len() - i,
        {
            let state: u64 = self.state;
            self.state = ((state << 8u64) | (state >> 56u64)) ^ (bytes[i] as u64);
            i = i + 1;
            proof {
                assert(bytes@.take(i as int).drop_last() =~= bytes@.take(i - 1));
            }
        }
        assert(bytes@.take(i as int) =~= bytes@);
    }
}


/// Where a block's bytes are.
#[derive(Clone, Copy, Debug, PartialEq, Eq)]
pub enum Place {
    /// In memory, and on disk too where there is a backing slot.
    Ram { slot: SlotId, backing: Option<DiskSlot> },
    /// On disk only.
    Disk(DiskSlot),
}

impl Place {
    /// The slot in memory, if it has one.
    pub open spec fn slot(self) -> Option<SlotId> {
        match self {
            Place::Ram { slot, .. } => Some(slot),
            Place::Disk(_) => None,
        }
    }

    /// The slot on disk, if it has one.
    pub open spec fn copy(self) -> Option<DiskSlot> {
        match self {
            Place::Ram { backing, .. } => backing,
            Place::Disk(slot) => Some(slot),
        }
    }

    /// Memory that has not been written to disk yet.
    pub fn dirty(slot: SlotId) -> (place: Self)
        ensures
            place == (Place::Ram { slot, backing: None }),
    {
        Place::Ram { slot, backing: None }
    }

    pub fn is_ram(self) -> (yes: bool)
        ensures
            yes == (self is Ram),
    {
        match self {
            Place::Ram { .. } => true,
            Place::Disk(_) => false,
        }
    }

    pub fn ram(self) -> (slot: Option<SlotId>)
        ensures
            slot == self.slot(),
    {
        match self {
            Place::Ram { slot, .. } => Some(slot),
            Place::Disk(_) => None,
        }
    }

    /// The disk slot of a block that is on disk only.
    pub fn disk(self) -> (slot: Option<DiskSlot>)
        ensures
            slot == (if self is Disk {
                self.copy()
            } else {
                None
            }),
    {
        match self {
            Place::Ram { .. } => None,
            Place::Disk(slot) => Some(slot),
        }
    }

    /// The disk slot that holds the bytes, whether or not memory does too.
    pub fn backing(self) -> (slot: Option<DiskSlot>)
        ensures
            slot == self.copy(),
    {
        match self {
            Place::Ram { backing, .. } => backing,
            Place::Disk(slot) => Some(slot),
        }
    }

    /// In memory with no copy on disk.
    pub fn is_dirty(self) -> (yes: bool)
        ensures
            yes == (self.copy() is None),
    {
        match self {
            Place::Ram { backing, .. } => backing.is_none(),
            Place::Disk(_) => false,
        }
    }
}

#[derive(Clone, Copy, Debug, PartialEq, Eq)]
pub struct Entry {
    pub place: Place,
    /// `None` for a sequence's first block: its parent is the unstored root.
    pub parent: Option<BlockHash>,
    /// Resident blocks naming this one as parent; only a leaf may be removed.
    pub children: usize,
    /// Readers holding the block open; a pinned block stays where it is.
    pub pins: u64,
    /// Tokens covered from the start of the sequence through this block.
    pub depth_tokens: u32,
    /// Logical clock value at last hit.
    pub last_access: u64,
    /// Standing with the eviction policy: the lowest goes first.
    pub priority: u64,
    /// The access that `priority` was computed at.
    pub priority_access: u64,
}

#[derive(Clone, Copy, Debug, PartialEq, Eq, Structural)]
pub enum IndexError {
    AlreadyPresent,
    /// The named parent is not resident.
    OrphanParent,
    /// Removing this block would strand its descendants.
    HasChildren,
    NotFound,
}

/// The clock after one more access.
pub open spec fn tick(clock: u64) -> u64 {
    if clock == u64::MAX {
        clock
    } else {
        (clock + 1) as u64
    }
}

/// The clock after `count` more accesses.
pub open spec fn ticks(clock: u64, count: nat) -> u64 {
    if clock + count > u64::MAX {
        u64::MAX
    } else {
        (clock + count) as u64
    }
}

/// `count` is how many leading `hashes` are resident.
pub open spec fn is_resident_run(
    entries: Map<u128, Entry>,
    hashes: Seq<BlockHash>,
    count: nat,
) -> bool {
    &&& count <= hashes.len()
    &&& forall|i: int| 0 <= i < count ==> entries.dom().contains((#[trigger] hashes[i])@)
    &&& count < hashes.len() ==> !entries.dom().contains(hashes[count as int]@)
}

/// The entries once the first `count` of `hashes` have been hit in turn.
pub open spec fn after_hits(
    entries: Map<u128, Entry>,
    clock: u64,
    hashes: Seq<BlockHash>,
    count: nat,
) -> Map<u128, Entry>
    decreases count,
{
    if count == 0 {
        entries
    } else {
        let before = after_hits(entries, clock, hashes, (count - 1) as nat);
        let name = hashes[count - 1]@;
        before.insert(name, hit(before[name], ticks(clock, count)))
    }
}

/// Whether `entry` hangs below `name`.
pub open spec fn below(entry: Entry, name: u128) -> bool {
    entry.parent matches Some(parent) && parent@ == name
}

/// The resident blocks that name `name` as their parent.
pub open spec fn children_of(entries: Map<u128, Entry>, name: u128) -> Set<u128> {
    entries.dom().filter(|child: u128| below(entries[child], name))
}

/// The entry after one more hit.
pub open spec fn hit(entry: Entry, now: u64) -> Entry {
    Entry { last_access: now, ..entry }
}

/// The entry of a block that was just put in `place`.
pub open spec fn fresh_entry(
    place: Place,
    parent: Option<BlockHash>,
    depth_tokens: u32,
    now: u64,
) -> Entry {
    Entry {
        place,
        parent,
        children: 0,
        pins: 0,
        depth_tokens,
        last_access: now,
        priority: 0,
        priority_access: now,
    }
}

/// The entries once `name` has been hung below its parent.
pub open spec fn attached(entries: Map<u128, Entry>, name: u128, entry: Entry) -> Map<u128, Entry> {
    let grown = entries.insert(name, entry);
    match entry.parent {
        Some(parent) => grown.insert(
            parent@,
            Entry { children: (entries[parent@].children + 1) as usize, ..entries[parent@] },
        ),
        None => grown,
    }
}

/// The entries once the leaf `name` has been taken off its parent.
pub open spec fn detached(entries: Map<u128, Entry>, name: u128) -> Map<u128, Entry> {
    let pruned = entries.remove(name);
    match entries[name].parent {
        Some(parent) => pruned.insert(
            parent@,
            Entry { children: (entries[parent@].children - 1) as usize, ..entries[parent@] },
        ),
        None => pruned,
    }
}

/// Every block but the first of its sequence hangs below a resident block
/// that ranks lower, and every block counts its children.
pub open spec fn is_tree(entries: Map<u128, Entry>, rank: Map<u128, nat>) -> bool {
    &&& entries.dom().finite()
    &&& forall|name: u128| #[trigger]
        entries.dom().contains(name) ==> {
            &&& entries[name].children == children_of(entries, name).len()
            &&& entries[name].parent matches Some(parent) ==> entries.dom().contains(parent@)
                && rank[parent@] < rank[name]
        }
}

/// No block was used later than the clock says, and no two blocks at the same
/// time, short of where the clock stops.
#[verifier::opaque]
pub open spec fn is_timed(entries: Map<u128, Entry>, clock: u64) -> bool {
    &&& forall|name: u128| #[trigger]
        entries.dom().contains(name) ==> entries[name].last_access <= clock
    &&& forall|a: u128, b: u128|
        #![trigger entries.dom().contains(a), entries.dom().contains(b)]
        entries.dom().contains(a) && entries.dom().contains(b) && a != b
            && entries[a].last_access == entries[b].last_access ==> entries[a].last_access
            == u64::MAX
}

/// A resident block that nothing hangs below.
pub open spec fn is_leaf(entries: Map<u128, Entry>, name: u128) -> bool {
    entries.dom().contains(name) && entries[name].children == 0
}

/// `path` leads from a block through its parents to the first of its
/// sequence, and every block on the way is resident.
pub open spec fn leads_to_root(entries: Map<u128, Entry>, path: Seq<u128>) -> bool {
    &&& path.len() > 0
    &&& forall|i: int| 0 <= i < path.len() ==> entries.dom().contains(#[trigger] path[i])
    &&& forall|i: int, j: int|
        0 <= i && j == i + 1 && j < path.len() ==> below(
            entries[#[trigger] path[i]],
            #[trigger] path[j],
        )
    &&& entries[path.last()].parent is None
}

pub struct Index {
    entries: HashMap<u128, Entry>,
    clock: u64,
    rank: Ghost<Map<u128, nat>>,
}

impl View for Index {
    type V = Map<u128, Entry>;

    closed spec fn view(&self) -> Map<u128, Entry> {
        self.entries@
    }
}

/// A run of hits changes nothing but when the blocks were last used.
pub proof fn lemma_hits_touch_only(
    entries: Map<u128, Entry>,
    clock: u64,
    hashes: Seq<BlockHash>,
    count: nat,
)
    requires
        count <= hashes.len(),
        forall|i: int| 0 <= i < count ==> entries.dom().contains((#[trigger] hashes[i])@),
    ensures
        after_hits(entries, clock, hashes, count).dom() == entries.dom(),
        forall|name: u128| #[trigger]
            entries.dom().contains(name) ==> after_hits(entries, clock, hashes, count)[name] == hit(
                entries[name],
                after_hits(entries, clock, hashes, count)[name].last_access,
            ),
        forall|name: u128| #[trigger]
            entries.dom().contains(name) && (forall|i: int|
                0 <= i < count ==> (#[trigger] hashes[i])@ != name) ==> after_hits(
                entries,
                clock,
                hashes,
                count,
            )[name] == entries[name],
    decreases count,
{
    if count > 0 {
        let less = (count - 1) as nat;
        lemma_hits_touch_only(entries, clock, hashes, less);
        let after = after_hits(entries, clock, hashes, count);
        assert(entries.dom().contains(hashes[count - 1]@));
        assert(after.dom() =~= entries.dom());
        assert forall|name: u128| #[trigger]
            entries.dom().contains(name) && (forall|i: int|
                0 <= i < count ==> (#[trigger] hashes[i])@ != name) implies after[name]
            == entries[name] by {
            assert(hashes[count - 1]@ != name);
            assert(forall|i: int| 0 <= i < less ==> (#[trigger] hashes[i])@ != name);
        }
    }
}

/// At most one block has been used since, namely just now.
proof fn lemma_time_goes_on(
    before: Map<u128, Entry>,
    clock: u64,
    after: Map<u128, Entry>,
    now: u64,
    name: u128,
)
    requires
        is_timed(before, clock),
        now == clock || now == tick(clock),
        forall|other: u128| #[trigger]
            after.dom().contains(other) ==> {
                ||| before.dom().contains(other) && after[other].last_access
                    == before[other].last_access
                ||| other == name && now == tick(clock) && after[other].last_access == now
            },
    ensures
        is_timed(after, now),
{
    reveal(is_timed);
    assert forall|a: u128, b: u128|
        #![trigger after.dom().contains(a), after.dom().contains(b)]
        after.dom().contains(a) && after.dom().contains(b) && a != b && after[a].last_access
            == after[b].last_access implies after[a].last_access == u64::MAX by {
        if before.dom().contains(a) && before.dom().contains(b) {
            assert(before[a].last_access <= clock && before[b].last_access <= clock);
        } else if before.dom().contains(a) {
            assert(before[a].last_access <= clock);
        } else if before.dom().contains(b) {
            assert(before[b].last_access <= clock);
        }
    }
}

proof fn lemma_same_links(a: Map<u128, Entry>, b: Map<u128, Entry>, name: u128)
    requires
        a.dom() == b.dom(),
        forall|k: u128| #[trigger] a.dom().contains(k) ==> a[k].parent == b[k].parent,
    ensures
        children_of(a, name) == children_of(b, name),
{
    assert(children_of(a, name) =~= children_of(b, name));
}

proof fn lemma_attach_keeps_tree(
    entries: Map<u128, Entry>,
    rank: Map<u128, nat>,
    name: u128,
    entry: Entry,
) -> (grown: Map<u128, nat>)
    requires
        is_tree(entries, rank),
        !entries.dom().contains(name),
        entry.children == 0,
        entry.parent matches Some(parent) ==> entries.dom().contains(parent@),
        entries.dom().len() <= usize::MAX,
    ensures
        is_tree(attached(entries, name, entry), grown),
        attached(entries, name, entry).dom() == entries.dom().insert(name),
        entry.parent matches Some(parent) ==> entries[parent@].children < usize::MAX,
{
    let after = attached(entries, name, entry);
    let grown = rank.insert(
        name,
        match entry.parent {
            Some(parent) => rank[parent@] + 1,
            None => 0,
        },
    );
    assert(after.dom() =~= entries.dom().insert(name));
    if let Some(parent) = entry.parent {
        let kin = children_of(entries, parent@);
        assert(!kin.contains(parent@));
        assert(kin.insert(parent@).subset_of(entries.dom()));
        vstd::set_lib::lemma_len_subset(kin.insert(parent@), entries.dom());
        vstd::set_lib::lemma_len_subset(kin, entries.dom());
        assert(kin.insert(parent@).len() == kin.len() + 1);
    }
    assert forall|k: u128| #[trigger] after.dom().contains(k) implies {
        &&& after[k].children == children_of(after, k).len()
        &&& after[k].parent matches Some(parent) ==> after.dom().contains(parent@) && grown[parent@]
            < grown[k]
    } by {
        if k == name {
            assert(children_of(after, name) =~= Set::<u128>::empty()) by {
                assert forall|c: u128| !children_of(after, name).contains(c) by {
                    if c != name && entries.dom().contains(c) {
                        assert(entries.dom().contains(c));
                    }
                }
            }
        } else {
            assert(entries.dom().contains(k));
            if below(entry, k) {
                assert(children_of(after, k) =~= children_of(entries, k).insert(name));
                assert(children_of(entries, k).subset_of(entries.dom()));
                vstd::set_lib::lemma_len_subset(children_of(entries, k), entries.dom());
                assert(!children_of(entries, k).contains(name));
            } else {
                assert(children_of(after, k) =~= children_of(entries, k));
            }
        }
    }
    grown
}

proof fn lemma_detach_keeps_tree(entries: Map<u128, Entry>, rank: Map<u128, nat>, name: u128)
    requires
        is_tree(entries, rank),
        entries.dom().contains(name),
        entries[name].children == 0,
    ensures
        is_tree(detached(entries, name), rank),
        detached(entries, name).dom() == entries.dom().remove(name),
        entries[name].parent matches Some(parent) ==> {
            &&& parent@ != name
            &&& entries.dom().contains(parent@)
            &&& entries[parent@].children > 0
        },
{
    let after = detached(entries, name);
    let entry = entries[name];
    vstd::set_lib::lemma_len_subset(children_of(entries, name), entries.dom());
    assert(children_of(entries, name) =~= Set::<u128>::empty());
    if let Some(parent) = entry.parent {
        assert(parent@ != name);
        assert(children_of(entries, parent@).contains(name));
        vstd::set_lib::lemma_len_subset(children_of(entries, parent@), entries.dom());
        assert(children_of(entries, parent@).len() > 0);
    }
    assert(after.dom() =~= entries.dom().remove(name));
    assert forall|k: u128| #[trigger] after.dom().contains(k) implies {
        &&& after[k].children == children_of(after, k).len()
        &&& after[k].parent matches Some(parent) ==> after.dom().contains(parent@) && rank[parent@]
            < rank[k]
    } by {
        assert(entries.dom().contains(k));
        if let Some(parent) = after[k].parent {
            if parent@ == name {
                assert(children_of(entries, name).contains(k));
            }
        }
        if below(entry, k) {
            assert(children_of(after, k) =~= children_of(entries, k).remove(name));
            vstd::set_lib::lemma_len_subset(children_of(entries, k), entries.dom());
        } else {
            assert(children_of(after, k) =~= children_of(entries, k));
        }
    }
}

/// Among finitely many names one ranks highest.
proof fn lemma_highest(names: Set<u128>, rank: Map<u128, nat>) -> (top: u128)
    requires
        names.finite(),
        names.len() > 0,
    ensures
        names.contains(top),
        forall|name: u128| #[trigger] names.contains(name) ==> rank[name] <= rank[top],
    decreases names.len(),
{
    vstd::set::axiom_set_choose_len(names);
    let one = names.choose();
    let rest = names.remove(one);
    if rest.len() == 0 {
        assert forall|name: u128| #[trigger] names.contains(name) implies rank[name] <= rank[one] by {
            if name != one {
                assert(rest.contains(name));
                assert(rest.remove(name).len() + 1 == rest.len());
            }
        }
        one
    } else {
        let top = lemma_highest(rest, rank);
        let best = if rank[one] > rank[top] {
            one
        } else {
            top
        };
        assert forall|name: u128| #[trigger] names.contains(name) implies rank[name]
            <= rank[best] by {
            if name != one {
                assert(rest.contains(name));
            }
        }
        best
    }
}

impl Index {
    /// The logical clock: how many accesses there have been.
    pub closed spec fn clock(&self) -> u64 {
        self.clock
    }

    /// Where each block stands above its ancestors.
    pub closed spec fn rank(&self) -> Map<u128, nat> {
        self.rank@
    }

    pub open spec fn wf(&self) -> bool {
        &&& is_tree(self@, self.rank())
        &&& is_timed(self@, self.clock())
    }

    /// A resident block is the first of its sequence or hangs below a resident
    /// block, and it counts the resident blocks that name it as their parent.
    pub proof fn lemma_links_are_whole(&self, name: u128)
        requires
            self.wf(),
            self@.dom().contains(name),
        ensures
            self@[name].parent matches Some(parent) ==> self@.dom().contains(parent@),
            self@[name].children == children_of(self@, name).len(),
    {
    }

    /// Blocks are told apart by when they were last used, and the last one used
    /// is newer than all others, until the clock stops.
    pub proof fn lemma_uses_are_told_apart(&self, a: u128, b: u128)
        requires
            self.wf(),
            self@.dom().contains(a),
            self@.dom().contains(b),
            a != b,
        ensures
            self@[a].last_access <= self.clock(),
            self@[a].last_access != self@[b].last_access || self@[a].last_access == u64::MAX,
            self@[a].last_access == self.clock() && self.clock() < u64::MAX
                ==> self@[b].last_access < self@[a].last_access,
    {
        reveal(is_timed);
    }

    /// A leaf is a resident block that no resident block names as its parent.
    pub proof fn lemma_leaves_have_nothing_below(&self, name: u128)
        requires
            self.wf(),
        ensures
            is_leaf(self@, name) <==> self@.dom().contains(name) && forall|child: u128| #[trigger]
                self@.dom().contains(child) ==> !below(self@[child], name),
    {
        let kin = children_of(self@, name);
        if self@.dom().contains(name) {
            vstd::set_lib::lemma_len_subset(kin, self@.dom());
            if kin.len() == 0 {
                assert forall|child: u128| #[trigger] self@.dom().contains(child) implies !below(
                    self@[child],
                    name,
                ) by {
                    assert(!kin.contains(child));
                }
            } else {
                let child = kin.choose();
                vstd::set::axiom_set_choose_len(kin);
                assert(kin.contains(child));
                assert(self@.dom().contains(child));
            }
        }
    }

    /// An index that holds anything has a leaf.
    pub proof fn lemma_something_can_be_removed(&self) -> (name: u128)
        requires
            self.wf(),
            self@.len() > 0,
        ensures
            is_leaf(self@, name),
    {
        vstd::set::axiom_set_choose_len(self@.dom());
        let name = lemma_highest(self@.dom(), self.rank());
        self.lemma_leaves_have_nothing_below(name);
        assert forall|child: u128| #[trigger] self@.dom().contains(child) implies !below(
            self@[child],
            name,
        ) by {
            assert(self.rank()[child] <= self.rank()[name]);
        }
        name
    }

    /// What a list of the leaves holds is just what could be removed now and
    /// nobody reads.
    pub proof fn lemma_listed_leaves_can_be_removed(
        &self,
        leaves: Seq<(BlockHash, Entry)>,
        name: u128,
    )
        requires
            self.lists_leaves(leaves),
        ensures
            (exists|i: int| 0 <= i < leaves.len() && (#[trigger] leaves[i]).0@ == name)
                <==> is_leaf(self@, name) && self@[name].pins == 0,
    {
    }

    /// `leaves` are the resident leaves that nobody reads, each once.
    pub open spec fn lists_leaves(&self, leaves: Seq<(BlockHash, Entry)>) -> bool {
        &&& forall|i: int|
            0 <= i < leaves.len() ==> {
                &&& is_leaf(self@, (#[trigger] leaves[i]).0@)
                &&& leaves[i].1 == self@[leaves[i].0@]
                &&& leaves[i].1.pins == 0
            }
        &&& forall|i: int, j: int|
            0 <= i < leaves.len() && 0 <= j < leaves.len() && i != j ==> (
            #[trigger] leaves[i]).0@ != (#[trigger] leaves[j]).0@
        &&& forall|name: u128| #[trigger]
            is_leaf(self@, name) && self@[name].pins == 0 ==> exists|i: int|
                0 <= i < leaves.len() && (#[trigger] leaves[i]).0@ == name
    }

    /// Every resident block can be followed up to the first block of its
    /// sequence without meeting a gap.
    pub proof fn lemma_every_prefix_is_resident(&self, name: u128) -> (path: Seq<u128>)
        requires
            self.wf(),
            self@.dom().contains(name),
        ensures
            leads_to_root(self@, path),
            path[0] == name,
        decreases self.rank()[name],
    {
        match self@[name].parent {
            None => seq![name],
            Some(parent) => {
                let rest = self.lemma_every_prefix_is_resident(parent@);
                let path = seq![name] + rest;
                assert(path.last() == rest.last());
                assert forall|i: int, j: int|
                    0 <= i && j == i + 1 && j < path.len() implies below(
                    self@[#[trigger] path[i]],
                    #[trigger] path[j],
                ) by {
                    if i > 0 {
                        assert(path[i] == rest[i - 1]);
                        assert(path[j] == rest[j - 1]);
                    }
                }
                path
            },
        }
    }

    /// Whatever a resident block hangs below is resident and is no leaf.
    pub proof fn lemma_parents_are_no_leaves(&self, name: u128)
        requires
            self.wf(),
            self@.dom().contains(name),
        ensures
            self@[name].parent matches Some(parent) ==> {
                &&& parent@ != name
                &&& self@.dom().contains(parent@)
                &&& self@[parent@].children > 0
            },
    {
        if let Some(parent) = self@[name].parent {
            let kin = children_of(self@, parent@);
            assert(kin.contains(name));
            assert(kin.subset_of(self@.dom()));
            vstd::set_lib::lemma_len_subset(kin, self@.dom());
            assert(kin.len() > 0);
        }
    }

    pub fn new() -> (index: Self)
        ensures
            index.wf(),
            index@ == Map::<u128, Entry>::empty(),
            index.clock() == 0,
    {
        proof {
            reveal(is_timed);
        }
        Index { entries: HashMap::new(), clock: 0, rank: Ghost(Map::empty()) }
    }

    pub fn len(&self) -> (len: usize)
        ensures
            len == self@.len(),
    {
        self.entries.len()
    }

    pub fn is_empty(&self) -> (empty: bool)
        ensures
            empty == (self@.len() == 0),
    {
        self.entries.len() == 0
    }

    pub fn contains(&self, hash: BlockHash) -> (found: bool)
        ensures
            found == self@.dom().contains(hash@),
    {
        self.entries.contains_key(&hash.name)
    }

    pub fn get(&self, hash: BlockHash) -> (entry: Option<&Entry>)
        ensures
            match entry {
                Some(entry) => self@.dom().contains(hash@) && *entry == self@[hash@],
                None => !self@.dom().contains(hash@),
            },
    {
        self.entries.get(&hash.name)
    }

    /// Put a changed entry back. Its links stay as they were.
    fn put(&mut self, hash: BlockHash, entry: Entry)
        requires
            is_tree(old(self)@, old(self).rank()),
            is_timed(old(self)@.insert(hash@, entry), old(self).clock()),
            old(self)@.dom().contains(hash@),
            entry.parent == old(self)@[hash@].parent,
            entry.children == old(self)@[hash@].children,
        ensures
            final(self).wf(),
            final(self)@ == old(self)@.insert(hash@, entry),
            final(self).clock() == old(self).clock(),
    {
        self.entries.insert(hash.name, entry);
        proof {
            assert(self@.dom() =~= old(self)@.dom());
            assert forall|name: u128| #[trigger] self@.dom().contains(name) implies {
                &&& self@[name].children == children_of(self@, name).len()
                &&& self@[name].parent matches Some(parent) ==> self@.dom().contains(parent@)
                    && self.rank()[parent@] < self.rank()[name]
            } by {
                assert(old(self)@.dom().contains(name));
                lemma_same_links(old(self)@, self@, name);
            }
        }
    }

    /// Look up and record the access.
    pub fn touch(&mut self, hash: BlockHash) -> (entry: Option<&Entry>)
        requires
            old(self).wf(),
        ensures
            final(self).wf(),
            final(self).clock() == tick(old(self).clock()),
            match entry {
                Some(entry) => {
                    &&& old(self)@.dom().contains(hash@)
                    &&& *entry == hit(old(self)@[hash@], final(self).clock())
                    &&& final(self)@ == old(self)@.insert(hash@, *entry)
                },
                None => !old(self)@.dom().contains(hash@) && final(self)@ == old(self)@,
            },
    {
        self.clock = self.clock.saturating_add(1);
        match self.entries.get(&hash.name) {
            None => {
                proof {
                    lemma_time_goes_on(old(self)@, old(self).clock(), self@, self.clock(), hash@);
                }
                None
            },
            Some(entry) => {
                let mut entry: Entry = *entry;
                entry.last_access = self.clock;
                proof {
                    lemma_time_goes_on(
                        old(self)@,
                        old(self).clock(),
                        self@.insert(hash@, entry),
                        self.clock(),
                        hash@,
                    );
                }
                self.put(hash, entry);
                self.entries.get(&hash.name)
            },
        }
    }

    pub fn insert(
        &mut self,
        hash: BlockHash,
        parent: Option<BlockHash>,
        place: Place,
        depth_tokens: u32,
    ) -> (done: Result<(), IndexError>)
        requires
            old(self).wf(),
        ensures
            final(self).wf(),
            match done {
                Ok(()) => {
                    &&& !old(self)@.dom().contains(hash@)
                    &&& parent matches Some(p) ==> old(self)@.dom().contains(p@)
                    &&& final(self).clock() == tick(old(self).clock())
                    &&& final(self)@ == attached(
                        old(self)@,
                        hash@,
                        fresh_entry(place, parent, depth_tokens, final(self).clock()),
                    )
                    &&& parent matches Some(p) ==> old(self)@[p@].children < usize::MAX
                },
                Err(error) => {
                    &&& error == (if old(self)@.dom().contains(hash@) {
                        IndexError::AlreadyPresent
                    } else {
                        IndexError::OrphanParent
                    })
                    &&& old(self)@.dom().contains(hash@) || (parent matches Some(p)
                        && !old(self)@.dom().contains(p@))
                    &&& final(self)@ == old(self)@
                    &&& final(self).clock() == old(self).clock()
                },
            },
    {
        if self.entries.contains_key(&hash.name) {
            return Err(IndexError::AlreadyPresent);
        }
        if let Some(parent) = parent {
            if !self.entries.contains_key(&parent.name) {
                return Err(IndexError::OrphanParent);
            }
        }
        let resident: usize = self.entries.len();
        self.clock = self.clock.saturating_add(1);
        let entry = Entry {
            place,
            parent,
            children: 0,
            pins: 0,
            depth_tokens,
            last_access: self.clock,
            priority: 0,
            priority_access: self.clock,
        };
        proof {
            assert(resident == self@.dom().len());
            let grown = lemma_attach_keeps_tree(self@, self.rank@, hash@, entry);
            self.rank@ = grown;
        }
        self.entries.insert(hash.name, entry);
        if let Some(parent) = parent {
            if let Some(above) = self.entries.get(&parent.name) {
                let mut above: Entry = *above;
                above.children = above.children + 1;
                self.entries.insert(parent.name, above);
            }
        }
        proof {
            lemma_time_goes_on(old(self)@, old(self).clock(), self@, self.clock(), hash@);
        }
        Ok(())
    }

    /// Remove a leaf, returning its entry so the caller can free the slot.
    pub fn remove(&mut self, hash: BlockHash) -> (removed: Result<Entry, IndexError>)
        requires
            old(self).wf(),
        ensures
            final(self).wf(),
            final(self).clock() == old(self).clock(),
            removed is Ok <==> is_leaf(old(self)@, hash@),
            match removed {
                Ok(entry) => {
                    &&& old(self)@.dom().contains(hash@)
                    &&& entry == old(self)@[hash@]
                    &&& entry.children == 0
                    &&& final(self)@ == detached(old(self)@, hash@)
                    &&& final(self)@.dom() == old(self)@.dom().remove(hash@)
                    &&& entry.parent matches Some(p) ==> p@ != hash@ && old(self)@.dom().contains(
                        p@,
                    ) && old(self)@[p@].children > 0
                },
                Err(IndexError::NotFound) => {
                    &&& !old(self)@.dom().contains(hash@)
                    &&& final(self)@ == old(self)@
                },
                Err(error) => {
                    &&& error == IndexError::HasChildren
                    &&& old(self)@.dom().contains(hash@)
                    &&& old(self)@[hash@].children > 0
                    &&& final(self)@ == old(self)@
                },
            },
    {
        let entry: Entry = match self.entries.get(&hash.name) {
            None => {
                return Err(IndexError::NotFound);
            },
            Some(entry) => *entry,
        };
        if entry.children > 0 {
            return Err(IndexError::HasChildren);
        }
        proof {
            lemma_detach_keeps_tree(self@, self.rank@, hash@);
        }
        self.entries.remove(&hash.name);
        if let Some(parent) = entry.parent {
            if let Some(above) = self.entries.get(&parent.name) {
                let mut above: Entry = *above;
                above.children = above.children - 1;
                self.entries.insert(parent.name, above);
            }
        }
        proof {
            lemma_time_goes_on(old(self)@, old(self).clock(), self@, self.clock(), hash@);
        }
        Ok(entry)
    }

    /// Hold a block open, as a hit. `None` if it is absent, or if its count
    /// of readers is at its limit.
    pub fn pin(&mut self, hash: BlockHash) -> (place: Option<Place>)
        requires
            old(self).wf(),
        ensures
            final(self).wf(),
            match place {
                Some(place) => {
                    &&& old(self)@.dom().contains(hash@)
                    &&& old(self)@[hash@].pins < u64::MAX
                    &&& place == old(self)@[hash@].place
                    &&& final(self).clock() == tick(old(self).clock())
                    &&& final(self)@ == old(self)@.insert(
                        hash@,
                        Entry {
                            pins: (old(self)@[hash@].pins + 1) as u64,
                            last_access: final(self).clock(),
                            ..old(self)@[hash@]
                        },
                    )
                },
                None => {
                    &&& old(self)@.dom().contains(hash@) ==> old(self)@[hash@].pins == u64::MAX
                    &&& final(self).clock() == old(self).clock()
                    &&& final(self)@ == old(self)@
                },
            },
    {
        let mut entry: Entry = match self.entries.get(&hash.name) {
            None => {
                return None;
            },
            Some(entry) => *entry,
        };
        if entry.pins == u64::MAX {
            return None;
        }
        self.clock = self.clock.saturating_add(1);
        entry.pins = entry.pins + 1;
        entry.last_access = self.clock;
        proof {
            lemma_time_goes_on(
                old(self)@,
                old(self).clock(),
                self@.insert(hash@, entry),
                self.clock(),
                hash@,
            );
        }
        self.put(hash, entry);
        Some(entry.place)
    }

    /// Let go of a block held open by `pin`.
    pub fn unpin(&mut self, hash: BlockHash)
        requires
            old(self).wf(),
        ensures
            final(self).wf(),
            final(self).clock() == old(self).clock(),
            final(self)@ == (if old(self)@.dom().contains(hash@) && old(self)@[hash@].pins > 0 {
                old(self)@.insert(
                    hash@,
                    Entry { pins: (old(self)@[hash@].pins - 1) as u64, ..old(self)@[hash@] },
                )
            } else {
                old(self)@
            }),
    {
        if let Some(entry) = self.entries.get(&hash.name) {
            let mut entry: Entry = *entry;
            if entry.pins > 0 {
                entry.pins = entry.pins - 1;
                proof {
                    lemma_time_goes_on(
                        old(self)@,
                        old(self).clock(),
                        self@.insert(hash@, entry),
                        self.clock(),
                        hash@,
                    );
                }
                self.put(hash, entry);
            }
        }
    }

    /// Record what the block is worth as of its last access.
    pub fn set_priority(&mut self, hash: BlockHash, priority: u64)
        requires
            old(self).wf(),
        ensures
            final(self).wf(),
            final(self).clock() == old(self).clock(),
            final(self)@ == (if old(self)@.dom().contains(hash@) {
                old(self)@.insert(
                    hash@,
                    Entry {
                        priority,
                        priority_access: old(self)@[hash@].last_access,
                        ..old(self)@[hash@]
                    },
                )
            } else {
                old(self)@
            }),
    {
        if let Some(entry) = self.entries.get(&hash.name) {
            let mut entry: Entry = *entry;
            entry.priority = priority;
            entry.priority_access = entry.last_access;
            proof {
                lemma_time_goes_on(
                    old(self)@,
                    old(self).clock(),
                    self@.insert(hash@, entry),
                    self.clock(),
                    hash@,
                );
            }
            self.put(hash, entry);
        }
    }

    /// Record that the block's bytes have moved.
    pub fn set_place(&mut self, hash: BlockHash, place: Place)
        requires
            old(self).wf(),
        ensures
            final(self).wf(),
            final(self).clock() == old(self).clock(),
            final(self)@ == (if old(self)@.dom().contains(hash@) {
                old(self)@.insert(hash@, Entry { place, ..old(self)@[hash@] })
            } else {
                old(self)@
            }),
    {
        if let Some(entry) = self.entries.get(&hash.name) {
            let mut entry: Entry = *entry;
            entry.place = place;
            proof {
                lemma_time_goes_on(
                    old(self)@,
                    old(self).clock(),
                    self@.insert(hash@, entry),
                    self.clock(),
                    hash@,
                );
            }
            self.put(hash, entry);
        }
    }

    /// How many leading blocks of `hashes` are resident. Stops at the first
    /// miss: a hit past a gap is not a hit.
    pub fn match_prefix(&mut self, hashes: &[BlockHash]) -> (matched: usize)
        requires
            old(self).wf(),
        ensures
            final(self).wf(),
            is_resident_run(old(self)@, hashes@, matched as nat),
            final(self)@ == after_hits(old(self)@, old(self).clock(), hashes@, matched as nat),
            final(self)@.dom() == old(self)@.dom(),
            final(self).clock() == ticks(
                old(self).clock(),
                if matched < hashes@.len() {
                    (matched + 1) as nat
                } else {
                    matched as nat
                },
            ),
    {
        let mut matched: usize = 0;
        while matched < hashes.len()
            invariant
                self.wf(),
                matched <= hashes@.len(),
                forall|i: int|
                    0 <= i < matched ==> old(self)@.dom().contains((#[trigger] hashes@[i])@),
                self@ == after_hits(old(self)@, old(self).clock(), hashes@, matched as nat),
                self@.dom() == old(self)@.dom(),
                self.clock() == ticks(old(self).clock(), matched as nat),
            decreases hashes.len() - matched,
        {
            if self.touch(hashes[matched]).is_none() {
                return matched;
            }
            matched = matched + 1;
            assert(self@.dom() =~= old(self)@.dom());
        }
        matched
    }

    /// The names of all resident blocks, in no particular order.
    pub fn names(&self) -> (names: Vec<BlockHash>)
        ensures
            names@.len() == self@.len(),
            forall|i: int, j: int|
                0 <= i < names@.len() && 0 <= j < names@.len() && i != j ==> (#[trigger] names@[i])@
                    != (#[trigger] names@[j])@,
            forall|i: int|
                0 <= i < names@.len() ==> self@.dom().contains((#[trigger] names@[i])@),
            forall|name: u128| #[trigger]
                self@.dom().contains(name) ==> exists|i: int|
                    0 <= i < names@.len() && (#[trigger] names@[i])@ == name,
    {
        let mut names: Vec<BlockHash> = Vec::new();
        let ghost listed = vstd::std_specs::iter::IteratorSpec::remaining(&self.entries.keys());
        for name in keys: self.entries.keys()
            invariant
                keys.seq() == listed,
                names@.len() == keys.index(),
                forall|i: int| 0 <= i < names@.len() ==> (#[trigger] names@[i])@ == *listed[i],
        {
            names.push(BlockHash { name: *name });
        }
        proof {
            assert(listed.unref().to_set() == self@.dom());
            assert forall|i: int| 0 <= i < names@.len() implies self@.dom().contains(
                (#[trigger] names@[i])@,
            ) by {
                assert(listed.unref()[i] == names@[i]@);
                assert(listed.unref().to_set().contains(listed.unref()[i]));
            }
            assert forall|name: u128| #[trigger] self@.dom().contains(name) implies exists|i: int|
                0 <= i < names@.len() && (#[trigger] names@[i])@ == name by {
                assert(listed.unref().to_set().contains(name));
                let i = choose|i: int| 0 <= i < listed.len() && listed.unref()[i] == name;
                assert(names@[i]@ == name);
            }
        }
        names
    }

    /// Resident leaves that nobody reads: the only blocks eligible for
    /// eviction.
    pub fn leaves(&self) -> (leaves: Vec<(BlockHash, Entry)>)
        ensures
            self.lists_leaves(leaves@),
    {
        let names = self.names();
        let mut leaves: Vec<(BlockHash, Entry)> = Vec::new();
        let mut from: Ghost<Seq<int>> = Ghost(Seq::empty());
        let mut i: usize = 0;
        while i < names.len()
            invariant
                i <= names@.len(),
                forall|i: int|
                    0 <= i < names@.len() ==> self@.dom().contains((#[trigger] names@[i])@),
                forall|i: int, j: int|
                    0 <= i < names@.len() && 0 <= j < names@.len() && i != j ==> (
                    #[trigger] names@[i])@ != (#[trigger] names@[j])@,
                leaves@.len() == from@.len(),
                forall|k: int|
                    0 <= k < leaves@.len() ==> {
                        &&& 0 <= #[trigger] from@[k] < i
                        &&& leaves@[k].0 == names@[from@[k]]
                    },
                forall|k: int, l: int|
                    0 <= k < l < leaves@.len() ==> #[trigger] from@[k] < #[trigger] from@[l],
                forall|k: int|
                    0 <= k < leaves@.len() ==> {
                        &&& self@.dom().contains((#[trigger] leaves@[k]).0@)
                        &&& leaves@[k].1 == self@[leaves@[k].0@]
                        &&& leaves@[k].1.children == 0
                        &&& leaves@[k].1.pins == 0
                    },
                forall|n: int|
                    0 <= n < i && self@[(#[trigger] names@[n])@].children == 0
                        && self@[names@[n]@].pins == 0 ==> exists|k: int|
                        0 <= k < leaves@.len() && (#[trigger] leaves@[k]).0@ == names@[n]@,
            decreases names.len() - i,
        {
            let hash: BlockHash = names[i];
            if let Some(entry) = self.get(hash) {
                if entry.children == 0 && entry.pins == 0 {
                    let ghost before = leaves@;
                    leaves.push((hash, *entry));
                    proof {
                        from@ = from@.push(i as int);
                        assert forall|n: int|
                            0 <= n < i + 1 && self@[(#[trigger] names@[n])@].children == 0
                                && self@[names@[n]@].pins == 0 implies exists|k: int|
                            0 <= k < leaves@.len() && (#[trigger] leaves@[k]).0@ == names@[n]@ by {
                            if n == i {
                                assert(leaves@[before.len() as int].0@ == names@[n]@);
                            } else {
                                let k = choose|k: int|
                                    0 <= k < before.len() && (#[trigger] before[k]).0@
                                        == names@[n]@;
                                assert(leaves@[k].0@ == names@[n]@);
                            }
                        }
                    }
                }
            }
            i = i + 1;
        }
        proof {
            assert forall|k: int, l: int|
                0 <= k < leaves@.len() && 0 <= l < leaves@.len() && k != l implies (
            #[trigger] leaves@[k]).0@ != (#[trigger] leaves@[l]).0@ by {
                let (a, b) = (from@[k], from@[l]);
                assert(a != b);
                assert(leaves@[k].0 == names@[a]);
                assert(leaves@[l].0 == names@[b]);
            }
        }
        leaves
    }
}

impl Default for Index {
    fn default() -> (index: Self)
        ensures
            index.wf(),
            index@ == Map::<u128, Entry>::empty(),
            index.clock() == 0,
    {
        Self::new()
    }
}

/// The clock goes up by one with each use, until it can go no further.
pub proof fn lemma_clock_counts_uses(clock: u64, count: nat)
    ensures
        clock < u64::MAX ==> tick(clock) == clock + 1,
        clock == u64::MAX ==> tick(clock) == u64::MAX,
        clock + count <= u64::MAX ==> ticks(clock, count) == clock + count,
        clock + count > u64::MAX ==> ticks(clock, count) == u64::MAX,
{
}

/// Hanging a new block below its parent adds that block, gives the parent one
/// child more, and touches no other block. The new one has no children and no
/// readers.
pub proof fn lemma_inserting_touches_only_the_parent(
    entries: Map<u128, Entry>,
    name: u128,
    place: Place,
    parent: Option<BlockHash>,
    depth_tokens: u32,
    now: u64,
    other: u128,
)
    requires
        parent != Some(BlockHash { name }),
        parent matches Some(above) ==> entries.dom().contains(above@)
            && entries[above@].children < usize::MAX,
    ensures
        ({
            let after = attached(entries, name, fresh_entry(place, parent, depth_tokens, now));
            &&& after.dom() == entries.dom().insert(name)
            &&& after[name].place == place
            &&& after[name].parent == parent
            &&& after[name].children == 0
            &&& after[name].pins == 0
            &&& after[name].depth_tokens == depth_tokens
            &&& after[name].last_access == now
            &&& other != name && entries.dom().contains(other) ==> after[other] == (Entry {
                children: if parent == Some(BlockHash { name: other }) {
                    (entries[other].children + 1) as usize
                } else {
                    entries[other].children
                },
                ..entries[other]
            })
        }),
{
    let after = attached(entries, name, fresh_entry(place, parent, depth_tokens, now));
    assert(after.dom() =~= entries.dom().insert(name));
}

/// Taking a leaf off its parent removes that block, leaves the parent one child
/// fewer, and touches no other block. It undoes hanging it there.
pub proof fn lemma_removing_touches_only_the_parent(
    entries: Map<u128, Entry>,
    name: u128,
    other: u128,
)
    requires
        entries.dom().contains(name),
        entries[name].parent != Some(BlockHash { name }),
        entries[name].parent matches Some(above) ==> entries.dom().contains(above@)
            && entries[above@].children > 0,
    ensures
        ({
            let after = detached(entries, name);
            &&& after.dom() == entries.dom().remove(name)
            &&& other != name && entries.dom().contains(other) ==> after[other] == (Entry {
                children: if entries[name].parent == Some(BlockHash { name: other }) {
                    (entries[other].children - 1) as usize
                } else {
                    entries[other].children
                },
                ..entries[other]
            })
            &&& attached(after, name, entries[name]) == entries
        }),
{
    let after = detached(entries, name);
    assert(after.dom() =~= entries.dom().remove(name));
    assert(attached(after, name, entries[name]) =~= entries);
}

/// How many leading names are resident: all of those, and not the next.
pub proof fn lemma_resident_run_is_the_longest(
    entries: Map<u128, Entry>,
    hashes: Seq<BlockHash>,
    count: nat,
    other: nat,
)
    requires
        is_resident_run(entries, hashes, count),
        other <= hashes.len(),
        forall|i: int| 0 <= i < other ==> entries.dom().contains((#[trigger] hashes[i])@),
    ensures
        count <= hashes.len(),
        other <= count,
        forall|i: int| 0 <= i < count ==> entries.dom().contains((#[trigger] hashes[i])@),
        count < hashes.len() ==> !entries.dom().contains(hashes[count as int]@),
{
    if other > count {
        assert(entries.dom().contains(hashes[count as int]@));
    }
}

/// A resident block is a leaf exactly where no resident block has it as its
/// parent, and it counts as many children as have.
pub proof fn lemma_children_are_counted(index: &Index, name: u128)
    requires
        index.wf(),
        index@.dom().contains(name),
    ensures
        index@[name].children == index@.dom().filter(
            |child: u128| index@[child].parent == Some(BlockHash { name }),
        ).len(),
        index@[name].parent matches Some(above) ==> index@.dom().contains(above@),
        is_leaf(index@, name) <==> forall|child: u128| #[trigger]
            index@.dom().contains(child) ==> index@[child].parent != Some(BlockHash { name }),
{
    let said = index@.dom().filter(
        |child: u128| index@[child].parent == Some(BlockHash { name }),
    );
    assert(said =~= children_of(index@, name));
    index.lemma_leaves_have_nothing_below(name);
}

/// A list of the leaves lists each resident block that nobody reads and that no
/// resident block has as its parent, once, and nothing else.
pub proof fn lemma_leaves_are_listed_once(
    index: &Index,
    leaves: Vec<(BlockHash, Entry)>,
    name: u128,
    i: int,
    j: int,
)
    requires
        index.wf(),
        call_ensures(Index::leaves, (index,), leaves),
    ensures
        (exists|k: int| 0 <= k < leaves@.len() && (#[trigger] leaves@[k]).0@ == name) <==> {
            &&& index@.dom().contains(name)
            &&& index@[name].pins == 0
            &&& forall|child: u128| #[trigger]
                index@.dom().contains(child) ==> index@[child].parent != Some(BlockHash { name })
        },
        0 <= i < leaves@.len() ==> leaves@[i].1 == index@[leaves@[i].0@],
        0 <= i < j < leaves@.len() ==> leaves@[i].0 != leaves@[j].0,
{
    if index@.dom().contains(name) {
        lemma_children_are_counted(index, name);
        if is_leaf(index@, name) && index@[name].pins == 0 {
            assert(exists|k: int| 0 <= k < leaves@.len() && (#[trigger] leaves@[k]).0@ == name);
        }
    }
}

/// A hash over bytes takes them one at a time: what was there turns by eight
/// bits, and the byte is mixed in.
pub proof fn lemma_bytes_are_absorbed_in_turn(state: u64, bytes: Seq<u8>, byte: u8)
    ensures
        absorbed(state, Seq::empty()) == state,
        ({
            let before = absorbed(state, bytes);
            absorbed(state, bytes.push(byte)) == ((before << 8u64) | (before >> 56u64)) ^ (
            byte as u64)
        }),
{
    assert(bytes.push(byte).drop_last() =~= bytes);
}

/// Where a block lies and whether it is on disk, as its place says.
pub proof fn lemma_places_are_told(
    place: Place,
    in_ram: bool,
    slot: Option<SlotId>,
    only_disk: Option<DiskSlot>,
    backing: Option<DiskSlot>,
    dirty: bool,
)
    requires
        call_ensures(Place::is_ram, (place,), in_ram),
        call_ensures(Place::ram, (place,), slot),
        call_ensures(Place::disk, (place,), only_disk),
        call_ensures(Place::backing, (place,), backing),
        call_ensures(Place::is_dirty, (place,), dirty),
    ensures
        match place {
            Place::Ram { slot: at, backing: copy } => {
                &&& in_ram
                &&& slot == Some(at)
                &&& only_disk is None
                &&& backing == copy
                &&& dirty == (copy is None)
            },
            Place::Disk(copy) => {
                &&& !in_ram
                &&& slot is None
                &&& only_disk == Some(copy)
                &&& backing == Some(copy)
                &&& !dirty
            },
        },
{
}

} // verus!
