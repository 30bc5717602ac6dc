//! The eviction policy on its own, and the heap under it.

use kvtier::block::BlockHash;
use kvtier::evict::{Costs, GreedyDual, Wanted};
use kvtier::heap::{Candidate, CandidateHeap};
use kvtier::index::{Index, Place};
use kvtier::slab::SlotId;
use kvtier::tier::DiskSlot;

/// A block costs its depth.
struct Depth;

impl Costs for Depth {
    fn priority_for(&self, inflation: u64, depth_tokens: u32) -> u64 {
        inflation + u64::from(depth_tokens)
    }

    fn worth_demoting(&self, depth_tokens: u32) -> bool {
        depth_tokens > 100
    }
}

fn name(n: u8) -> BlockHash {
    BlockHash::from_bytes([n; 16])
}

/// An index of leaves in memory with these depths, all offered to a policy.
fn leaves(depths: &[u32]) -> (Index, GreedyDual) {
    let mut index = Index::new();
    let mut policy = GreedyDual::new();
    for (i, &depth) in depths.iter().enumerate() {
        let hash = name(i as u8 + 1);
        let place = Place::dirty(SlotId::for_tests(i as u32));
        index.insert(hash, None, place, depth).unwrap();
        let priority = policy.priority_for(&Depth, depth);
        policy.offer(hash, priority, index.get(hash).unwrap().last_access);
        index.set_priority(hash, priority);
    }
    (index, policy)
}

#[test]
fn the_least_priority_goes_first() {
    let (index, mut policy) = leaves(&[30, 10, 20]);
    let victim = policy.select_victim(&index, None, Wanted::InRam);
    assert_eq!(victim, Some((name(2), 10)));
    let victim = policy.select_victim(&index, None, Wanted::InRam);
    assert_eq!(victim, Some((name(3), 20)));
}

#[test]
fn what_is_protected_stays_a_candidate() {
    let (index, mut policy) = leaves(&[10, 20]);
    let victim = policy.select_victim(&index, Some(name(1)), Wanted::InRam);
    assert_eq!(victim, Some((name(2), 20)));
    let victim = policy.select_victim(&index, None, Wanted::InRam);
    assert_eq!(victim, Some((name(1), 10)));
    assert_eq!(policy.select_victim(&index, None, Wanted::InRam), None);
}

#[test]
fn stale_and_pinned_candidates_are_passed_over() {
    let (mut index, mut policy) = leaves(&[10, 20, 30]);
    index.pin(name(1));
    index.remove(name(2)).unwrap();
    let victim = policy.select_victim(&index, None, Wanted::InRam);
    assert_eq!(victim, Some((name(3), 30)));
}

#[test]
fn each_tier_picks_its_own() {
    let (mut index, mut policy) = leaves(&[10, 20]);
    index.set_place(name(1), Place::Disk(DiskSlot { number: 0 }));
    let victim = policy.select_victim(&index, None, Wanted::DiskLeaf);
    assert_eq!(victim, Some((name(1), 10)));
    let victim = policy.select_victim(&index, None, Wanted::Dirty);
    assert_eq!(victim, Some((name(2), 20)));
}

#[test]
fn peeking_takes_nothing() {
    let (index, mut policy) = leaves(&[40, 10, 30, 20]);
    let ahead = policy.peek_victims(&index, 3, Wanted::Dirty);
    assert_eq!(ahead, [name(2), name(4), name(3)]);
    assert_eq!(policy.candidates(), 4);
    let victim = policy.select_victim(&index, None, Wanted::InRam);
    assert_eq!(victim, Some((name(2), 10)));
}

#[test]
fn the_clock_only_rises() {
    let mut policy = GreedyDual::default();
    assert_eq!(policy.inflation(), 0);
    policy.note_eviction(50);
    policy.note_eviction(20);
    assert_eq!(policy.inflation(), 50);
    assert_eq!(policy.priority_for(&Depth, 7), 57);
}

#[test]
fn compacting_drops_what_is_stale() {
    let (mut index, mut policy) = leaves(&[10, 20]);
    for _ in 0..200 {
        index.touch(name(1));
        let priority = policy.priority_for(&Depth, 10);
        policy.offer(name(1), priority, index.get(name(1)).unwrap().last_access);
        index.set_priority(name(1), priority);
    }
    assert_eq!(policy.candidates(), 202);
    assert!(policy.should_compact(index.len()));
    policy.compact(&index, Wanted::InRam);
    assert_eq!(policy.candidates(), 2);
    assert!(!policy.should_compact(index.len()));
}

#[test]
fn a_heap_gives_back_in_order() {
    let mut heap = CandidateHeap::new();
    let keys = [5u64, 3, 9, 1, 7, 3, 8];
    for (i, &key) in keys.iter().enumerate() {
        heap.push(Candidate {
            key,
            stamp: i as u64,
            name: 0,
        });
    }
    assert_eq!(heap.len(), keys.len());
    let mut out = Vec::new();
    while let Some(candidate) = heap.pop() {
        out.push((candidate.key, candidate.stamp));
    }
    assert_eq!(
        out,
        [(1, 3), (3, 1), (3, 5), (5, 0), (7, 4), (8, 6), (9, 2)]
    );
    heap.push(Candidate {
        key: 1,
        stamp: 1,
        name: 1,
    });
    heap.clear();
    assert_eq!(heap.pop(), None);
}
