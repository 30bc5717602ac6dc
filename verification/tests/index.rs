//! The index: which blocks are resident, what they hang below, who reads them.

use std::hash::Hasher;

use kvtier::block::{BlockHash, BlockLayout, PrefixHasher, TokenId};
use kvtier::index::{IdentityHasher, Index, IndexError, Place};
use kvtier::slab::SlotId;
use kvtier::tier::DiskSlot;

fn slot(n: u32) -> Place {
    Place::dirty(SlotId::for_tests(n))
}

fn chain(n: usize) -> Vec<BlockHash> {
    let layout = BlockLayout::tiny();
    let hasher = PrefixHasher::new("m", &layout);
    let tokens: Vec<TokenId> = (0..(n * 16) as TokenId).collect();
    hasher.chain(&tokens)
}

#[test]
fn insert_requires_resident_parent() {
    let mut index = Index::new();
    let hashes = chain(3);

    assert_eq!(
        index.insert(hashes[1], Some(hashes[0]), slot(0), 32),
        Err(IndexError::OrphanParent),
        "must refuse a block whose prefix is missing"
    );

    index.insert(hashes[0], None, slot(0), 16).unwrap();
    index
        .insert(hashes[1], Some(hashes[0]), slot(1), 32)
        .unwrap();
    assert_eq!(index.len(), 2);
}

#[test]
fn duplicate_insert_is_rejected() {
    let mut index = Index::new();
    let hashes = chain(1);
    index.insert(hashes[0], None, slot(0), 16).unwrap();
    assert_eq!(
        index.insert(hashes[0], None, slot(1), 16),
        Err(IndexError::AlreadyPresent)
    );
}

#[test]
fn parents_are_pinned_by_their_children() {
    let mut index = Index::new();
    let hashes = chain(3);
    index.insert(hashes[0], None, slot(0), 16).unwrap();
    index
        .insert(hashes[1], Some(hashes[0]), slot(1), 32)
        .unwrap();
    index
        .insert(hashes[2], Some(hashes[1]), slot(2), 48)
        .unwrap();

    assert_eq!(index.remove(hashes[0]), Err(IndexError::HasChildren));
    assert_eq!(index.remove(hashes[1]), Err(IndexError::HasChildren));

    // Peeling inward from the leaf works.
    index.remove(hashes[2]).unwrap();
    index.remove(hashes[1]).unwrap();
    index.remove(hashes[0]).unwrap();
    assert!(index.is_empty());
}

#[test]
fn only_leaves_are_evictable() {
    let mut index = Index::new();
    let hashes = chain(3);
    index.insert(hashes[0], None, slot(0), 16).unwrap();
    index
        .insert(hashes[1], Some(hashes[0]), slot(1), 32)
        .unwrap();
    index
        .insert(hashes[2], Some(hashes[1]), slot(2), 48)
        .unwrap();

    let leaves: Vec<_> = index.leaves().into_iter().map(|(h, _)| h).collect();
    assert_eq!(leaves, vec![hashes[2]]);
}

#[test]
fn match_prefix_stops_at_first_gap() {
    let mut index = Index::new();
    let hashes = chain(4);
    index.insert(hashes[0], None, slot(0), 16).unwrap();
    index
        .insert(hashes[1], Some(hashes[0]), slot(1), 32)
        .unwrap();

    assert_eq!(index.match_prefix(&hashes), 2);
    assert_eq!(index.match_prefix(&hashes[..1]), 1);
    assert_eq!(index.match_prefix(&[]), 0);
}

#[test]
fn touch_advances_recency() {
    let mut index = Index::new();
    let hashes = chain(2);
    index.insert(hashes[0], None, slot(0), 16).unwrap();
    index
        .insert(hashes[1], Some(hashes[0]), slot(1), 32)
        .unwrap();

    let before = index.get(hashes[0]).unwrap().last_access;
    index.touch(hashes[0]).unwrap();
    assert!(index.get(hashes[0]).unwrap().last_access > before);
}

#[test]
fn a_block_that_is_read_is_no_candidate() {
    let mut index = Index::new();
    let hashes = chain(1);
    index.insert(hashes[0], None, slot(5), 16).unwrap();

    assert_eq!(index.pin(hashes[0]), Some(slot(5)));
    assert_eq!(index.get(hashes[0]).unwrap().pins, 1);
    assert!(index.leaves().is_empty());

    index.unpin(hashes[0]);
    assert_eq!(index.leaves().len(), 1);
    assert_eq!(index.remove(hashes[0]).unwrap().place, slot(5));
    assert_eq!(index.remove(hashes[0]), Err(IndexError::NotFound));
    assert_eq!(index.pin(hashes[0]), None);
}

#[test]
fn no_two_blocks_share_a_last_use() {
    let mut index = Index::new();
    let hashes = chain(4);
    for (i, &hash) in hashes.iter().enumerate() {
        let parent = if i == 0 { None } else { Some(hashes[i - 1]) };
        index.insert(hash, parent, slot(i as u32), 16).unwrap();
    }
    index.touch(hashes[1]);
    index.pin(hashes[0]);
    index.touch(BlockHash::from_bytes([7; 16]));
    index.touch(hashes[3]);

    let mut uses: Vec<u64> = hashes
        .iter()
        .map(|&hash| index.get(hash).unwrap().last_access)
        .collect();
    // The last one used is newer than all others.
    assert_eq!(uses.iter().max(), uses.last());
    uses.sort();
    uses.dedup();
    assert_eq!(uses.len(), 4);
}

#[test]
fn just_the_leaves_can_be_removed_until_nothing_is_left() {
    let mut index = Index::new();
    let hashes = chain(3);
    let other = BlockHash::from_bytes([7; 16]);
    index.insert(hashes[0], None, slot(0), 16).unwrap();
    index.insert(hashes[1], Some(hashes[0]), slot(1), 32).unwrap();
    index.insert(hashes[2], Some(hashes[1]), slot(2), 48).unwrap();
    index.insert(other, Some(hashes[0]), slot(3), 32).unwrap();

    let mut removed = 0;
    while index.len() > 0 {
        let leaves: Vec<BlockHash> = index.leaves().iter().map(|leaf| leaf.0).collect();
        assert!(!leaves.is_empty(), "an index that holds anything has a leaf");
        for hash in [hashes[0], hashes[1], hashes[2], other] {
            if index.get(hash).is_some() && !leaves.contains(&hash) {
                assert_eq!(index.remove(hash), Err(IndexError::HasChildren));
            }
        }
        for hash in leaves {
            assert_eq!(index.remove(hash).unwrap().children, 0);
            removed += 1;
        }
    }
    assert_eq!(removed, 4);
}

#[test]
fn children_keep_a_history_whole() {
    let mut index = Index::new();
    let hashes = chain(5);
    for (i, &hash) in hashes.iter().enumerate() {
        let parent = if i == 0 { None } else { Some(hashes[i - 1]) };
        index.insert(hash, parent, slot(i as u32), 16 * (i as u32 + 1)).unwrap();
    }
    // From every block one gets to the first without meeting a gap.
    for &hash in &hashes {
        let mut steps = 0;
        let mut current = *index.get(hash).unwrap();
        while let Some(parent) = current.parent {
            current = *index.get(parent).unwrap();
            steps += 1;
        }
        assert!(steps < hashes.len());
    }
    assert_eq!(index.get(hashes[2]).unwrap().children, 1);
    assert_eq!(index.get(hashes[4]).unwrap().children, 0);
}

#[test]
fn places_say_where_bytes_are() {
    let ram = SlotId::for_tests(3);
    let disk = DiskSlot { number: 4 };

    let dirty = Place::dirty(ram);
    assert!(dirty.is_ram() && dirty.is_dirty());
    assert_eq!((dirty.ram(), dirty.disk(), dirty.backing()), (Some(ram), None, None));

    let clean = Place::Ram { slot: ram, backing: Some(disk) };
    assert!(clean.is_ram() && !clean.is_dirty());
    assert_eq!(clean.backing(), Some(disk));

    let demoted = Place::Disk(disk);
    assert!(!demoted.is_ram() && !demoted.is_dirty());
    assert_eq!((demoted.ram(), demoted.disk()), (None, Some(disk)));
}

#[test]
fn bucket_keys_pass_straight_through() {
    let hash = BlockHash::from_bytes([9, 8, 7, 6, 5, 4, 3, 2, 1, 0, 1, 2, 3, 4, 5, 6]);
    let mut hasher = IdentityHasher::default();
    hasher.write_u64(hash.bucket_key());
    assert_eq!(hasher.finish(), u64::from_le_bytes([9, 8, 7, 6, 5, 4, 3, 2]));
}

#[test]
fn other_keys_are_mixed_byte_by_byte() {
    let mut hasher = IdentityHasher::default();
    hasher.write(&[1, 2, 3]);
    assert_eq!(hasher.finish(), 0x01_02_03);

    // What falls off the top comes in at the bottom.
    hasher.write_u64(0xFF00_0000_0000_0001);
    hasher.write(&[0x10]);
    assert_eq!(hasher.finish(), 0x0000_0000_0000_01EF);
}
