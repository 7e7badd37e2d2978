use easy_fs::block_cache::{BlockCache, BlockDevice};

#[test]
fn cached_write_is_read_back_before_flush() {
    let mut dev = BlockDevice::new(4);
    let mut cache = BlockCache::new(2);
    cache.modify(&mut dev, 1, 10, b"abc");
    let block = cache.read(&mut dev, 1);
    assert_eq!(&block[10..13], b"abc");
    assert_eq!(block.len(), 512);
    assert_eq!(dev.read_block(1), vec![0u8; 512]);
}

#[test]
fn eviction_writes_back_dirty_blocks() {
    let mut dev = BlockDevice::new(4);
    let mut cache = BlockCache::new(2);
    cache.modify(&mut dev, 0, 0, b"zero");
    cache.read(&mut dev, 1);
    cache.read(&mut dev, 2);
    assert_eq!(&dev.read_block(0)[..4], b"zero");
    assert_eq!(&cache.read(&mut dev, 0)[..4], b"zero");
}

#[test]
fn least_recent_entry_leaves_first() {
    let mut dev = BlockDevice::new(4);
    let mut cache = BlockCache::new(2);
    cache.modify(&mut dev, 0, 0, b"a");
    cache.modify(&mut dev, 1, 0, b"b");
    cache.read(&mut dev, 0);
    cache.read(&mut dev, 2);
    assert_eq!(dev.read_block(1)[0], b'b');
    assert_eq!(dev.read_block(0)[0], 0);
}

#[test]
fn sync_all_flushes_without_evicting() {
    let mut dev = BlockDevice::new(3);
    let mut cache = BlockCache::new(3);
    cache.modify(&mut dev, 2, 500, b"end");
    cache.modify(&mut dev, 0, 0, b"start");
    assert_eq!(dev.read_block(2)[500], 0);
    cache.sync_all(&mut dev);
    assert_eq!(&dev.read_block(2)[500..503], b"end");
    assert_eq!(&dev.read_block(0)[..5], b"start");
    assert_eq!(&cache.read(&mut dev, 2)[500..503], b"end");
}

#[test]
fn residency_follows_least_recent_use() {
    let mut dev = BlockDevice::new(5);
    let mut cache = BlockCache::new(2);
    cache.read(&mut dev, 3);
    cache.read(&mut dev, 4);
    assert!(cache.contains_block(3) && cache.contains_block(4));
    cache.read(&mut dev, 3);
    cache.read(&mut dev, 0);
    assert!(cache.contains_block(3));
    assert!(cache.contains_block(0));
    assert!(!cache.contains_block(4));
    cache.sync_all(&mut dev);
    assert!(cache.contains_block(3) && cache.contains_block(0));
}
