use easy_os::block_cache::{BlockCache, BlockCacheManager};
use easy_os::block_dev::{BlockDevice, MemoryDevice};
use easy_os::BLOCK_SIZE;

#[test]
fn cache_writes_back_on_eviction_and_sync() {
    let mut cache = BlockCacheManager::new(MemoryDevice::new(40, 0));
    for b in 0..40usize {
        cache.modify(b, 3, &[b as u8, 0xaa]);
    }
    for b in 0..40usize {
        assert_eq!(cache.read(b, 3, 2), vec![b as u8, 0xaa]);
    }
    let dev = cache.into_device();
    let bytes = dev.into_bytes();
    for b in 0..40usize {
        assert_eq!(bytes[b * BLOCK_SIZE + 3], b as u8);
        assert_eq!(bytes[b * BLOCK_SIZE + 4], 0xaa);
        assert_eq!(bytes[b * BLOCK_SIZE + 5], 0);
    }
}

#[test]
fn block_cache_entry() {
    let mut dev = MemoryDevice::new(2, 7);
    assert_eq!(dev.get_dev_id(), 7);
    assert_eq!(dev.num_blocks(), 2);
    let mut c = BlockCache::new(1, &dev);
    assert_eq!(c.read(0, 4), vec![0, 0, 0, 0]);
    c.modify(510, &[9, 8]);
    assert_eq!(c.read(508, 4), vec![0, 0, 9, 8]);
    c.sync(&mut dev);
    let mut buf = [0u8; 512];
    dev.read_block(1, &mut buf);
    assert_eq!(&buf[510..], &[9, 8]);
    dev.read_block(0, &mut buf);
    assert!(buf.iter().all(|b| *b == 0));
}
