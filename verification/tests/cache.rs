use ext2fs::block_cache::{BlockCache, BlockCacheManager};
use ext2fs::{BlockDevice, RamDisk, BLOCK_SIZE};

fn block_of(byte: u8) -> Vec<u8> {
    vec![byte; BLOCK_SIZE]
}

#[test]
fn ram_disk_starts_zeroed() {
    let disk = RamDisk::new(3);
    assert_eq!(disk.block_num(), 3);
    assert_eq!(disk.block_size(), BLOCK_SIZE);
    let mut buf = vec![1u8; BLOCK_SIZE];
    disk.read_block(2, &mut buf);
    assert_eq!(buf, block_of(0));
}

#[test]
fn ram_disk_keeps_what_is_written() {
    let mut disk = RamDisk::new(2);
    disk.write_block(1, &block_of(9));
    let mut buf = block_of(0);
    disk.read_block(1, &mut buf);
    assert_eq!(buf, block_of(9));
    disk.read_block(0, &mut buf);
    assert_eq!(buf, block_of(0));
}

#[test]
fn ram_disk_from_bytes_cuts_blocks() {
    let mut bytes = vec![0u8; 2 * BLOCK_SIZE + 5];
    bytes[BLOCK_SIZE] = 7;
    let disk = RamDisk::from_bytes(&bytes);
    assert_eq!(disk.block_num(), 2);
    assert_eq!(disk.data[1][0], 7);
    assert_eq!(disk.data[0][0], 0);
}

#[test]
fn block_cache_read_modify_zero() {
    let mut cache = BlockCache::new(5, 16).unwrap();
    assert_eq!(cache.block_id, 5);
    assert_eq!(cache.cache_size(), 16);
    assert!(!cache.modified);
    cache.modify(3, &[1, 2, 3]);
    assert!(cache.modified);
    assert_eq!(cache.read(2, 5), vec![0, 1, 2, 3, 0]);
    assert_eq!(cache.get_ref(4, 2), &[2, 3]);
    cache.zero();
    assert_eq!(cache.read(0, 16), vec![0u8; 16]);
}

#[test]
fn cache_eviction_preserves_data() {
    let mut manager = BlockCacheManager::new(RamDisk::new(16), 4);
    for id in 0..10usize {
        manager.write_bytes(id, 0, &block_of(id as u8 + 1));
    }
    assert!(manager.blocks.len() <= 4);
    for id in 0..10usize {
        assert_eq!(manager.read_bytes(id, 0, BLOCK_SIZE), block_of(id as u8 + 1));
    }
}

#[test]
fn cache_writes_back_only_on_eviction_or_sync() {
    let mut manager = BlockCacheManager::new(RamDisk::new(8), 2);
    manager.write_bytes(0, 10, &[5, 6]);
    assert_eq!(manager.device.data[0][10], 0);
    manager.write_bytes(1, 0, &[1]);
    manager.write_bytes(2, 0, &[2]);
    // block 0 was the least recently used and had to leave
    assert_eq!(manager.device.data[0][10], 5);
    assert_eq!(manager.device.data[0][11], 6);
    assert_eq!(manager.device.data[2][0], 0);
    manager.sync_all_block();
    assert_eq!(manager.device.data[1][0], 1);
    assert_eq!(manager.device.data[2][0], 2);
    assert!(manager.blocks.iter().all(|b| !b.modified));
}

#[test]
fn cache_evicts_least_recently_used_unpinned() {
    let mut manager = BlockCacheManager::new(RamDisk::new(8), 2);
    manager.get_block_cache(0);
    manager.get_block_cache(1);
    manager.release_block(1);
    // block 0 is still held, so block 1 gives way
    manager.get_block_cache(2);
    let ids: Vec<usize> = manager.blocks.iter().map(|b| b.block_id).collect();
    assert!(ids.contains(&0));
    assert!(ids.contains(&2));
    assert!(!ids.contains(&1));
    manager.release_block(0);
    manager.release_block(2);
    assert!(manager.blocks.iter().all(|b| b.pins == 0));
    // a released block becomes the most recently used
    assert_eq!(manager.blocks[manager.blocks.len() - 1].block_id, 2);
}

#[test]
fn cache_pin_only_hits_resident_blocks() {
    let mut manager = BlockCacheManager::new(RamDisk::new(8), 2);
    assert!(!manager.pin_block(3));
    manager.get_block_cache(3);
    assert!(manager.pin_block(3));
    assert_eq!(manager.blocks[0].pins, 2);
    manager.unpin_block(3);
    manager.release_block(3);
    assert_eq!(manager.blocks[0].pins, 0);
}

#[test]
fn cache_write_block_cleans_one_block() {
    let mut manager = BlockCacheManager::new(RamDisk::new(4), 2);
    manager.get_block_cache(1);
    manager.modify_block(1, 4, &[8]);
    assert_eq!(manager.block(1).cache[4], 8);
    assert!(manager.block(1).modified);
    manager.write_block(1);
    assert!(!manager.block(1).modified);
    assert_eq!(manager.device.data[1][4], 8);
    manager.write_block(1);
    manager.release_block(1);
    let device = manager.into_device();
    assert_eq!(device.data[1][4], 8);
}

#[test]
fn cache_init_starts_over() {
    let mut manager = BlockCacheManager::new(RamDisk::new(4), 2);
    manager.write_bytes(0, 0, &[1]);
    manager.init(RamDisk::new(6), 3);
    assert_eq!(manager.block_num(), 6);
    assert_eq!(manager.max_cache, 3);
    assert!(manager.blocks.is_empty());
    assert_eq!(manager.read_bytes(0, 0, 1), vec![0]);
}
