use edos_fs::block_device::BlockDevice;
use edos_fs::error::Error;
use edos_fs::journal::layout::{
    build_commit_block, build_descriptor_block, build_jsb_block, check_ring_block, journal_sb_checksum,
    read_jsb, read_records, JOURNAL_MAGIC, KIND_COMMIT, KIND_DESCRIPTOR,
};
use edos_fs::journal::replay::{replay, Extent};
use edos_fs::journal::tx::TxHandle;
use edos_fs::journal::{CheckpointTracker, Journal};
use edos_fs::shard::{shard_index, CachedBlockPage, Shard, DIRTY_EXPIRE_MS, NUM_SHARDS, SHARD_CAPACITY};

fn device(pages: usize) -> BlockDevice {
    BlockDevice::from_image(1, &vec![0u8; pages * 4096])
}

/// A journal of 33 blocks at the end of a device of 64 pages.
fn journal_on(dev: &mut BlockDevice) -> Journal {
    let block = build_jsb_block(33, 1, 1, 0, 0);
    let mut none = CheckpointTracker::new(0);
    dev.write_direct(&mut none, 31, &block).unwrap();
    Journal::new(1, 0, 31, 33, 1, 1, 0)
}

#[test]
fn device_writes_are_read_back() {
    let mut d = device(4);
    d.write_bytes(&mut CheckpointTracker::new(0), 4090, b"across the border").unwrap();
    assert_eq!(d.read_bytes(4090, 17), Ok(b"across the border".to_vec()));
    assert_eq!(d.read_bytes(4089, 1), Ok(vec![0]));
    assert_eq!(d.read_sectors(7, 2).unwrap()[506..523], b"across the border"[..]);
}

#[test]
fn device_ends_where_it_ends() {
    let mut d = device(2);
    assert_eq!(d.page_count(), 2);
    assert_eq!(d.read_page(2), Err(Error::IoError));
    assert_eq!(d.read_pages(1, 2), Err(Error::IoError));
    assert_eq!(d.write_page(&mut CheckpointTracker::new(0), 2, &vec![0u8; 4096]), Err(Error::IoError));
    assert_eq!(d.read_bytes(8191, 2), Err(Error::IoError));
}

#[test]
fn device_writes_wait_in_the_cache() {
    let mut d = device(4);
    let page = vec![3u8; 4096];
    d.write_page(&mut CheckpointTracker::new(0), 1, &page).unwrap();
    assert!(d.is_dirty(1));
    assert_eq!(d.home_page(1), Some(vec![0u8; 4096]));
    assert_eq!(d.read_page(1), Ok(page.clone()));
    let mut t = CheckpointTracker::new(0);
    d.flush(&mut t);
    assert!(!d.is_dirty(1));
    assert_eq!(d.home_page(1), Some(page));
    assert_eq!(d.home_page(9), None);
}

#[test]
fn device_writeback_waits_for_pages_to_age() {
    let mut d = device(4);
    d.set_clock(100);
    d.write_page(&mut CheckpointTracker::new(0), 1, &vec![3u8; 4096]).unwrap();
    let mut t = CheckpointTracker::new(0);
    assert_eq!(d.writeback(&mut t, false), 0);
    d.set_clock(100 + DIRTY_EXPIRE_MS);
    assert_eq!(d.writeback(&mut t, false), 4096);
    assert_eq!(d.writeback(&mut t, true), 0);
}

#[test]
fn device_pages_of_open_transactions_stay() {
    let mut d = device(64);
    let mut j = journal_on(&mut d);
    d.write_page(&mut CheckpointTracker::new(0), 2, &vec![9u8; 4096]).unwrap();
    let mut tx = j.begin_tx();
    tx.enroll_block(2);
    j.end_tx(tx, &d);
    assert!(!j.is_safe_to_flush(2));
    assert!(j.has_pending_work());
    d.flush(&mut j.checkpoint_tracker);
    assert_eq!(d.home_page(2), Some(vec![0u8; 4096]));
    j.seal_and_commit(&mut d).unwrap();
    assert!(j.is_safe_to_flush(2));
    d.flush(&mut j.checkpoint_tracker);
    assert_eq!(d.home_page(2), Some(vec![9u8; 4096]));
}

#[test]
fn device_counts_hits_and_misses() {
    let mut d = device(4);
    d.read_page(0).unwrap();
    d.read_page(0).unwrap();
    let s = d.stats();
    assert_eq!((s.hits, s.misses), (1, 1));
    d.write_bytes(&mut CheckpointTracker::new(0), 4096, &[7u8; 4]).unwrap();
    let all = d.read_pages(0, 4).unwrap();
    assert_eq!(&all[1][..5], &[7, 7, 7, 7, 0]);
    let s = d.stats();
    assert_eq!((s.hits, s.misses), (3, 4));
    assert_eq!(d.read_pages(3, 2), Err(Error::IoError));
    let s = d.stats();
    assert_eq!((s.hits, s.misses), (4, 5));
}

#[test]
fn journal_replays_what_was_committed() {
    let mut d = device(64);
    let mut j = journal_on(&mut d);
    for (block, byte) in [(3u64, 7u8), (4, 8), (3, 9)] {
        d.write_page(&mut CheckpointTracker::new(0), block, &vec![byte; 4096]).unwrap();
        let mut tx = j.begin_tx();
        tx.enroll_block(block);
        j.end_tx(tx, &d);
        j.force_commit_and_wait(&mut d).unwrap();
    }
    let mut image: Vec<u8> = Vec::new();
    for i in 0..64 {
        image.extend(d.home_page(i).unwrap());
    }
    let mut after = BlockDevice::from_image(1, &image);
    assert_eq!(after.home_page(3), Some(vec![0u8; 4096]));
    let r = replay(&mut after, Extent { start: 31, count: 33 }, 1, 0).unwrap();
    assert_eq!(r.txs_applied, 3);
    assert_eq!(r.next_seq, 4);
    assert_eq!(after.read_page(3), Ok(vec![9u8; 4096]));
    assert_eq!(after.read_page(4), Ok(vec![8u8; 4096]));
    let again = replay(&mut after, Extent { start: 31, count: 33 }, 1, 0).unwrap();
    assert_eq!(again.txs_applied, 3);
    assert_eq!(after.read_page(3), Ok(vec![9u8; 4096]));
}

#[test]
fn journal_gives_up_where_the_device_ends() {
    let mut d = device(64);
    let mut j = Journal::new(1, 0, 31, 1000, 1, 1, 30);
    d.write_page(&mut CheckpointTracker::new(0), 3, &vec![7u8; 4096]).unwrap();
    let mut tx = j.begin_tx();
    tx.enroll_block(3);
    j.end_tx(tx, &d);
    assert_eq!(j.force_commit_and_wait(&mut d), Err(Error::IoError));
    assert!(check_ring_block(&d.home_page(62).unwrap(), KIND_DESCRIPTOR, 1));
    assert_eq!(d.home_page(63), Some(vec![7u8; 4096]));
    assert_eq!(j.cursors().2, 30);
    assert!(!j.has_pending_work());
    let r = replay(&mut d, Extent { start: 31, count: 1000 }, 1, 30);
    assert_eq!(r.err(), Some(Error::IoError));
    let r = replay(&mut d, Extent { start: 31, count: 1000 }, 1, 29).unwrap();
    assert_eq!((r.txs_applied, r.next_seq, r.next_block), (0, 1, 29));
    for count in [0, 1] {
        let r = replay(&mut d, Extent { start: 31, count }, 9, 4).unwrap();
        assert_eq!((r.txs_applied, r.next_seq, r.next_block), (0, 9, 4));
    }
}

#[test]
fn journal_does_not_replay_what_was_revoked() {
    let mut d = device(64);
    let mut j = journal_on(&mut d);
    d.write_page(&mut CheckpointTracker::new(0), 3, &vec![7u8; 4096]).unwrap();
    let mut tx = j.begin_tx();
    tx.enroll_block(3);
    j.end_tx(tx, &d);
    j.force_commit_and_wait(&mut d).unwrap();
    let mut tx = j.begin_tx();
    tx.enroll_revoke(3);
    j.end_tx(tx, &d);
    j.force_commit_and_wait(&mut d).unwrap();
    let mut image: Vec<u8> = Vec::new();
    for i in 0..64 {
        image.extend(d.home_page(i).unwrap());
    }
    let mut after = BlockDevice::from_image(1, &image);
    replay(&mut after, Extent { start: 31, count: 33 }, 1, 0).unwrap();
    assert_eq!(after.read_page(3), Ok(vec![0u8; 4096]));
}

#[test]
fn journal_drops_aborted_transactions() {
    let mut d = device(64);
    let mut j = journal_on(&mut d);
    let mut tx = TxHandle::new();
    tx.enroll_block(5);
    tx.abort();
    j.end_tx(tx, &d);
    assert!(!j.has_pending_work());
    assert_eq!(j.depths(), (0, 0, 0));
}

#[test]
fn journal_seals_transactions_that_grow_too_large() {
    let mut d = device(64);
    let mut j = journal_on(&mut d);
    assert_eq!(j.max_tx_blocks(), 8);
    let mut tx = j.begin_tx();
    for b in 0..8 {
        tx.enroll_block(b);
    }
    j.end_tx(tx, &d);
    assert_eq!(j.depths().0, 1);
    assert!(!j.seal_active());
}

#[test]
fn journal_blocks_are_checked() {
    let b = build_descriptor_block(5, 9, &[(10, 0), (11, 1)]);
    assert!(check_ring_block(&b, KIND_DESCRIPTOR, 5));
    assert!(!check_ring_block(&b, KIND_DESCRIPTOR, 6));
    assert!(!check_ring_block(&b, KIND_COMMIT, 5));
    assert_eq!(read_records(&b, 2), vec![(10, 0), (11, 1)]);
    let c = build_commit_block(5, 9, 0x1234);
    assert!(check_ring_block(&c, KIND_COMMIT, 5));
    assert_eq!(c.len(), 4096);
    let j = read_jsb(&build_jsb_block(33, 2, 3, 4, 5));
    assert_eq!(j.magic, JOURNAL_MAGIC);
    assert_eq!((j.tail_seq, j.head_seq, j.tail_block, j.head_block), (2, 3, 4, 5));
    assert_eq!(j.crc32, journal_sb_checksum(&j));
}

#[test]
fn shards_evict_the_page_used_longest_ago() {
    let mut s = Shard::new(1);
    for i in 0..SHARD_CAPACITY as u64 {
        assert!(s.insert(CachedBlockPage::new((1, i), vec![0u8; 4096])));
    }
    assert!(s.is_full());
    assert!(s.touch(0));
    assert!(!s.touch(9999));
    assert!(s.insert(CachedBlockPage::new((1, 5000), vec![0u8; 4096])));
    assert!(s.touch(0));
    assert!(!s.touch(1));
    assert!(s.touch(5000));
    s.remove(0);
    assert!(!s.touch(0));
}

#[test]
fn shards_keep_dirty_pages() {
    let mut s = Shard::new(1);
    for i in 0..SHARD_CAPACITY as u64 {
        s.insert(CachedBlockPage::new((1, i), vec![0u8; 4096]));
        s.put(i, vec![1u8; 4096], 0);
    }
    assert_eq!(s.dirty_len(), SHARD_CAPACITY);
    assert!(!s.insert(CachedBlockPage::new((1, 5000), vec![0u8; 4096])));
    s.clean(0);
    assert!(s.insert(CachedBlockPage::new((1, 5000), vec![0u8; 4096])));
    assert!(!s.touch(0));
    assert!(s.touch(7));
}

#[test]
fn pages_are_spread_over_the_shards() {
    for i in 0..100 {
        assert!(shard_index(3, i) < NUM_SHARDS);
    }
    let mut p = CachedBlockPage::new((1, 2), vec![0u8; 4096]);
    p.mark_dirty(10);
    p.mark_dirty(500);
    assert!(p.is_dirty());
    assert!(!p.is_expired(9 + DIRTY_EXPIRE_MS));
    assert!(p.is_expired(10 + DIRTY_EXPIRE_MS));
    p.pin();
    assert_eq!(p.pin_count(), 1);
    p.unpin();
    p.clear_dirty();
    assert!(!p.is_dirty());
}
