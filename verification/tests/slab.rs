//! The slab of memory, and the slots of both tiers.

use kvtier::block::BlockHash;
use kvtier::pool::SlotPool;
use kvtier::slab::{Slab, SlabError, SlotId};
use kvtier::tier::{DiskSlot, DiskTier};

#[test]
fn alloc_until_full_then_recycle() {
    let mut slab = Slab::new(64, 3).unwrap();
    let a = slab.claim().unwrap();
    let b = slab.claim().unwrap();
    let c = slab.claim().unwrap();
    assert_eq!(slab.live(), 3);
    assert!(slab.is_full());
    assert!(slab.claim().is_none(), "must refuse rather than overrun");

    slab.free(b);
    assert_eq!(slab.live(), 2);
    assert_eq!(slab.claim(), Some(b), "LIFO reuse keeps the hot slot hot");
    assert_ne!(a, c);
}

#[test]
fn slots_do_not_alias() {
    let mut slab = Slab::new(64, 4).unwrap();
    let a = slab.claim().unwrap();
    let b = slab.claim().unwrap();

    slab.block_mut(a).fill(0xAA);
    slab.block_mut(b).fill(0xBB);

    assert!(slab.block(a).iter().all(|&x| x == 0xAA));
    assert!(slab.block(b).iter().all(|&x| x == 0xBB));
}

#[test]
fn fresh_mapping_is_zeroed() {
    let mut slab = Slab::new(64, 2).unwrap();
    let slot = slab.claim().unwrap();
    assert!(slab.block(slot).iter().all(|&x| x == 0));
}

#[test]
fn a_reservation_covers_every_slot() {
    // 128 MiB of address space, a few KiB of it actually touched.
    let mut slab = Slab::new(2 * 1024 * 1024, 64).unwrap();
    assert_eq!(slab.reserved_bytes(), 128 * 1024 * 1024);
    let slot = slab.claim().unwrap();
    slab.block_mut(slot)[..4].copy_from_slice(&[1, 2, 3, 4]);
    assert_eq!(&slab.block(slot)[..4], &[1, 2, 3, 4]);
}

#[test]
fn more_memory_than_there_is_cannot_be_mapped() {
    assert!(matches!(
        Slab::new(1 << 31, 1 << 31),
        Err(SlabError::MapFailed(_))
    ));
}

#[test]
fn a_pinned_block_outlives_the_borrow_and_ignores_other_writes() {
    let mut slab = Slab::new(64, 4).unwrap();
    let held = slab.claim().unwrap();
    slab.block_mut(held).fill(0x11);

    let pinned = slab.pinned(BlockHash::from_bytes([0; 16]), held);

    // Writing other slots must not disturb the pinned one.
    for _ in 0..3 {
        let other = slab.claim().unwrap();
        slab.block_mut(other).fill(0x22);
    }
    assert!(pinned.bytes().iter().all(|&x| x == 0x11));
}

#[test]
fn a_slab_reports_its_shape() {
    let mut slab = Slab::new(32, 5).unwrap();
    assert_eq!((slab.block_bytes(), slab.capacity()), (32, 5));
    assert_eq!((slab.live(), slab.reserved_bytes()), (0, 160));
    let first = slab.claim().unwrap();
    assert_eq!(first, SlotId::for_tests(0));
    assert_eq!(first.index(), 0);
    assert_eq!(slab.claim().unwrap().index(), 1);

    slab.write(first, &[7; 32]);
    assert_eq!(slab.block(first), [7; 32]);
    let pinned = slab.pinned(BlockHash::from_bytes([3; 16]), first);
    assert_eq!(pinned.hash(), BlockHash::from_bytes([3; 16]));
    assert_eq!(pinned.bytes(), [7; 32]);
}

#[test]
fn a_writer_stages_a_block_before_it_is_published() {
    let mut slab = Slab::new(16, 2).unwrap();
    let slot = slab.claim().unwrap();
    let mut writer = slab.writer(slot);
    assert_eq!(writer.slot(), slot);
    writer.bytes_mut()[0] = 1;
    assert_eq!(writer.bytes()[..2], [1, 0]);
    writer.stage(&[9; 16]);
    assert_eq!(writer.bytes(), [9; 16]);
    slab.write(slot, writer.bytes());
    assert_eq!(slab.block(slot), [9; 16]);
}

#[test]
fn slots_run_out_and_recycle() {
    let mut tier = DiskTier::new(64, 2);
    let first = tier.claim().unwrap();
    tier.claim().unwrap();
    assert!(tier.is_full());
    assert!(tier.claim().is_none());

    tier.free(first);
    assert_eq!(tier.claim(), Some(first));
}

#[test]
fn a_disk_tier_counts_what_goes_through_it() {
    let mut tier = DiskTier::new(64, 8);
    assert_eq!((tier.block_bytes(), tier.capacity(), tier.live()), (64, 8, 0));
    tier.claim();
    let second = tier.claim().unwrap();
    assert_eq!(second, DiskSlot { number: 1 });
    assert_eq!((second.index(), tier.offset(second), tier.live()), (1, 64, 2));

    tier.note_writes(3, 192);
    tier.note_reads(2, 128);
    let stats = tier.stats();
    assert_eq!((stats.writes, stats.bytes_written), (3, 192));
    assert_eq!((stats.reads, stats.bytes_read), (2, 128));
}

#[test]
fn a_pool_hands_out_every_slot_once() {
    let mut pool = SlotPool::new(4);
    let mut seen: Vec<u32> = (0..4).map(|_| pool.claim().unwrap()).collect();
    assert!(pool.is_full());
    assert_eq!(pool.claim(), None);
    seen.sort();
    assert_eq!(seen, [0, 1, 2, 3]);
    pool.free(2);
    assert_eq!((pool.live(), pool.capacity()), (3, 4));
    assert_eq!(pool.claim(), Some(2));
}

#[test]
fn no_mapping_is_longer_than_a_slice_can_be() {
    // One byte over `isize::MAX`, whatever the machine has.
    let error = Slab::new(1 << 62, 2).err().map(|SlabError::MapFailed(error)| error.kind());
    assert_eq!(error, Some(std::io::ErrorKind::InvalidData));
}

#[test]
fn a_slab_is_what_the_answer_makes_of_it() {
    let mut map = memmap2::MmapMut::map_anon(64 * 2).unwrap();
    map[64..].fill(0x5A);
    let mut slab = Slab::from_map(Ok(map), 64, 2).unwrap();
    assert_eq!((slab.block_bytes(), slab.capacity(), slab.live()), (64, 2, 0));
    let (first, second) = (slab.claim().unwrap(), slab.claim().unwrap());
    assert!(slab.block(first).iter().all(|&x| x == 0));
    assert!(slab.block(second).iter().all(|&x| x == 0x5A));

    let refused = std::io::Error::from(std::io::ErrorKind::OutOfMemory);
    let error = Slab::from_map(Err(refused), 64, 2).err().unwrap();
    let SlabError::MapFailed(error) = error;
    assert_eq!(error.kind(), std::io::ErrorKind::OutOfMemory);
}
