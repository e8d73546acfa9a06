use easy_os::bitmap::Bitmap;
use easy_os::block_cache::BlockCacheManager;
use easy_os::block_dev::MemoryDevice;
use easy_os::efs::EasyFileSystem;
use easy_os::layout::{DiskInode, DiskInodeType, SuperBlock};
use easy_os::vfs::Inode;
use easy_os::BLOCK_SIZE;

const TOTAL_BLOCKS: u32 = 8192;

fn fresh_fs() -> EasyFileSystem<MemoryDevice> {
    let dev = MemoryDevice::new(TOTAL_BLOCKS as usize, 0);
    EasyFileSystem::create(dev, TOTAL_BLOCKS, 1)
}

fn reopened() -> (EasyFileSystem<MemoryDevice>, Inode) {
    let fs = fresh_fs();
    let dev = fs.into_device();
    let mut fs = EasyFileSystem::open(dev).expect("formatted image");
    let root = fs.root_inode();
    assert!(root.check_valid(&mut fs));
    (fs, root)
}

fn read_all(fs: &mut EasyFileSystem<MemoryDevice>, inode: &Inode) -> Vec<u8> {
    let mut read_buffer = [0u8; 127];
    let mut offset = 0usize;
    let mut out = Vec::new();
    loop {
        let len = inode.read_at(fs, offset, &mut read_buffer);
        if len == 0 {
            break;
        }
        offset += len;
        out.extend_from_slice(&read_buffer[..len]);
    }
    out
}

#[test]
fn efs_test() {
    let (mut fs, root_inode) = reopened();
    root_inode.create(&mut fs, "filea");
    root_inode.create(&mut fs, "fileb");
    let names = root_inode.ls(&mut fs);
    assert_eq!(names, vec![b"filea".to_vec(), b"fileb".to_vec()]);
    let filea = root_inode.find(&mut fs, "filea").unwrap();
    let greet_str = "Hello, World!";
    filea.write_at(&mut fs, 0, greet_str.as_bytes());

    let mut buffer = [0u8; 233];
    let len = filea.read_at(&mut fs, 0, &mut buffer);
    assert_eq!(greet_str, core::str::from_utf8(&buffer[..len]).unwrap());

    let mut random_str_test = |len: usize| {
        filea.clear(&mut fs);
        assert_eq!(filea.read_at(&mut fs, 0, &mut buffer), 0);
        let mut str = String::new();
        for _ in 0..len {
            str.push(char::from(b'0' + rand::random::<u8>() % 10));
        }
        let _write_len = filea.write_at(&mut fs, 0, str.as_bytes());
        let read_str = String::from_utf8(read_all(&mut fs, &filea)).unwrap();
        assert_eq!(str, read_str);
    };

    random_str_test(4 * BLOCK_SIZE);
    random_str_test(8 * BLOCK_SIZE + BLOCK_SIZE / 2);
    random_str_test(100 * BLOCK_SIZE);
    random_str_test(70 * BLOCK_SIZE);
    random_str_test((12 + 128) * BLOCK_SIZE);
    random_str_test(400 * BLOCK_SIZE);
    random_str_test(1000 * BLOCK_SIZE);
    random_str_test(2000 * BLOCK_SIZE);
}

#[test]
fn layout_of_a_fresh_image() {
    let fs = fresh_fs();
    assert_eq!(fs.inode_bitmap.maximum(), 4096);
    assert_eq!(fs.inode_area_start_block, 2);
    assert_eq!(fs.data_bitmap.start_block(), 2 + 1024);
    // (8192 - 1 - 1 - 1024 + 4096) / 4097 data-bitmap blocks
    assert_eq!(fs.data_area_start_block, 2 + 1024 + 2);
    let mut bytes = fs.into_device().into_bytes();
    let sb = SuperBlock::from_bytes(&bytes[..24]);
    assert!(sb.is_valid());
    assert_eq!(sb.total_blocks, 8192);
    assert_eq!(sb.inode_bitmap_blocks, 1);
    assert_eq!(sb.inode_area_blocks, 1024);
    assert_eq!(sb.data_bitmap_blocks, 2);
    assert_eq!(sb.data_area_blocks, 8192 - 1 - 1 - 1024 - 2);
    // inode 0 is taken by the root directory
    assert_eq!(bytes[BLOCK_SIZE], 1);
    bytes[0] = 0;
    let dev = MemoryDevice::from_bytes(bytes, 0);
    assert!(EasyFileSystem::open(dev).is_none());
}

#[test]
fn hello_world_round_trip() {
    let (mut fs, root) = reopened();
    let filea = root.create(&mut fs, "filea").unwrap();
    assert_eq!(filea.write_at(&mut fs, 0, b"Hello, World!"), 13);
    let mut buf = [0u8; 64];
    assert_eq!(filea.read_at(&mut fs, 0, &mut buf), 13);
    assert_eq!(&buf[..13], b"Hello, World!");
}

#[test]
fn write_clear_read() {
    let (mut fs, root) = reopened();
    let f = root.create(&mut fs, "f").unwrap();
    let data: Vec<u8> = (0..3000u32).map(|i| (i % 251) as u8).collect();
    assert_eq!(f.write_at(&mut fs, 0, &data), 3000);
    let mut small = [0u8; 10];
    assert_eq!(f.read_at(&mut fs, 0, &mut small), 10);
    assert_eq!(&small[..], &data[..10]);
    f.clear(&mut fs);
    assert_eq!(f.read_at(&mut fs, 0, &mut small), 0);
    // the freed blocks are handed out again
    let g = root.create(&mut fs, "g").unwrap();
    assert_eq!(g.write_at(&mut fs, 0, &data), 3000);
    assert_eq!(read_all(&mut fs, &g), data);
}

#[test]
fn write_in_the_middle_and_past_the_end() {
    let (mut fs, root) = reopened();
    let f = root.create(&mut fs, "f").unwrap();
    assert_eq!(f.write_at(&mut fs, 0, b"abcdef"), 6);
    assert_eq!(f.write_at(&mut fs, 2, b"XY"), 2);
    assert_eq!(read_all(&mut fs, &f), b"abXYef".to_vec());
    assert_eq!(f.write_at(&mut fs, 4, b"1234"), 4);
    assert_eq!(read_all(&mut fs, &f), b"abXY1234".to_vec());
    let mut buf = [7u8; 4];
    assert_eq!(f.read_at(&mut fs, 6, &mut buf), 2);
    assert_eq!(buf, [b'3', b'4', 7, 7]);
    assert_eq!(f.read_at(&mut fs, 8, &mut buf), 0);
    assert_eq!(f.read_at(&mut fs, 100, &mut buf), 0);
}

#[test]
fn image_round_trip() {
    let (mut fs, root) = reopened();
    let f = root.create(&mut fs, "data").unwrap();
    let data: Vec<u8> = (0..(200 * BLOCK_SIZE as u32)).map(|i| (i * 7 % 256) as u8).collect();
    assert_eq!(f.write_at(&mut fs, 0, &data), data.len());
    let bytes = fs.into_device().into_bytes();
    let mut fs = EasyFileSystem::open(MemoryDevice::from_bytes(bytes, 0)).unwrap();
    let root = fs.root_inode();
    assert!(root.check_valid(&mut fs));
    let f = root.find(&mut fs, "data").unwrap();
    assert!(f.check_valid(&mut fs));
    assert_eq!(read_all(&mut fs, &f), data);
}

#[test]
fn create_rejects_taken_and_bad_names() {
    let (mut fs, root) = reopened();
    assert!(root.create(&mut fs, "a").is_some());
    assert!(root.create(&mut fs, "a").is_none());
    assert!(root.create(&mut fs, "").is_some());
    assert!(root.create(&mut fs, "a_name_that_is_far_too_long_for_it").is_none());
    assert!(root.create(&mut fs, "x\0y").is_none());
    assert!(root.create(&mut fs, "exactly_twenty_seven_bytes_").is_some());
    assert!(root.find(&mut fs, "b").is_none());
    assert_eq!(root.ls(&mut fs).len(), 3);
}

#[test]
fn link_shares_contents() {
    let (mut fs, root) = reopened();
    let a = root.create(&mut fs, "a").unwrap();
    assert_eq!(a.write_at(&mut fs, 0, b"shared bytes"), 12);
    assert!(root.link(&mut fs, "a", "b"));
    assert!(!root.link(&mut fs, "a", "b"));
    assert!(!root.link(&mut fs, "missing", "c"));
    let b = root.find(&mut fs, "b").unwrap();
    assert_eq!(b.block_id, a.block_id);
    assert_eq!(b.block_offset, a.block_offset);
    assert_eq!(read_all(&mut fs, &b), b"shared bytes".to_vec());
    assert_eq!(root.ls(&mut fs), vec![b"a".to_vec(), b"b".to_vec()]);
}

#[test]
fn many_files_in_one_directory() {
    let (mut fs, root) = reopened();
    for i in 0..40 {
        let name = format!("file{}", i);
        let f = root.create(&mut fs, &name).unwrap();
        assert_eq!(f.write_at(&mut fs, 0, name.as_bytes()), name.len());
    }
    for i in 0..40 {
        let name = format!("file{}", i);
        let f = root.find(&mut fs, &name).unwrap();
        assert_eq!(read_all(&mut fs, &f), name.as_bytes().to_vec());
    }
    assert_eq!(root.ls(&mut fs).len(), 40);
}

#[test]
fn disk_inode_block_counts() {
    assert_eq!(DiskInode::total_blocks(0), 0);
    assert_eq!(DiskInode::total_blocks(1), 1);
    assert_eq!(DiskInode::total_blocks(512), 1);
    assert_eq!(DiskInode::total_blocks(28 * 512), 28);
    assert_eq!(DiskInode::total_blocks(28 * 512 + 1), 30);
    assert_eq!(DiskInode::total_blocks(156 * 512), 157);
    assert_eq!(DiskInode::total_blocks(157 * 512), 160);
    assert_eq!(DiskInode::total_blocks(284 * 512), 287);
    assert_eq!(DiskInode::total_blocks(285 * 512), 289);
    let mut d = DiskInode::new(DiskInodeType::File);
    assert_eq!(d.blocks_num_needed(157 * 512), 160);
    d.size = 100 * 512;
    assert_eq!(d.data_blocks(), 100);
    assert_eq!(d.blocks_num_needed(157 * 512), 160 - 101);
    assert!(d.is_file());
    assert!(!d.is_dir());
    d.initialize(DiskInodeType::Directory);
    assert!(d.is_dir());
    assert_eq!(d.size, 0);
}

#[test]
fn disk_inode_bytes_round_trip() {
    let mut d = DiskInode::new(DiskInodeType::Directory);
    d.size = 0x01020304;
    d.direct[5] = 77;
    d.indirect1 = 0xdeadbeef;
    d.indirect2 = 9;
    let b = d.to_bytes();
    assert_eq!(b.len(), 128);
    assert_eq!(&b[..4], &[4, 3, 2, 1]);
    let e = DiskInode::from_bytes(&b);
    assert_eq!(e.size, d.size);
    assert_eq!(e.direct, d.direct);
    assert_eq!(e.indirect1, d.indirect1);
    assert_eq!(e.indirect2, d.indirect2);
    assert!(e.is_dir());
}

#[test]
fn bitmap_lowest_first_and_release() {
    let mut cache = BlockCacheManager::new(MemoryDevice::new(3, 0));
    let bm = Bitmap::new(1, 2);
    assert_eq!(bm.maximum(), 8192);
    assert_eq!(bm.allocate(&mut cache), Some(0));
    assert_eq!(bm.allocate(&mut cache), Some(1));
    assert_eq!(bm.allocate(&mut cache), Some(2));
    bm.dealloc(&mut cache, 1);
    assert!(!bm.test(&mut cache, 1));
    assert_eq!(bm.allocate(&mut cache), Some(1));
    for i in 3..8192 {
        assert_eq!(bm.allocate(&mut cache), Some(i));
    }
    assert_eq!(bm.allocate(&mut cache), None);
    bm.dealloc(&mut cache, 5000);
    assert_eq!(bm.allocate(&mut cache), Some(5000));
    let dev = cache.into_device();
    let bytes = dev.into_bytes();
    assert!(bytes[..512].iter().all(|b| *b == 0));
    assert!(bytes[512..].iter().all(|b| *b == 0xff));
}

#[test]
fn alloc_then_dealloc_restores_the_bitmap() {
    let mut cache = BlockCacheManager::new(MemoryDevice::new(2, 0));
    let bm = Bitmap::new(0, 1);
    bm.allocate(&mut cache);
    bm.allocate(&mut cache);
    let before = cache.read(0, 0, BLOCK_SIZE);
    let i = bm.allocate(&mut cache).unwrap();
    assert_eq!(i, 2);
    bm.dealloc(&mut cache, i);
    assert_eq!(cache.read(0, 0, BLOCK_SIZE), before);
}

#[test]
fn clear_frees_blocks_for_reuse_and_validity_holds() {
    let (mut fs, root) = reopened();
    let f = root.create(&mut fs, "f").unwrap();
    assert!(f.check_valid(&mut fs));
    let data = vec![5u8; 40 * BLOCK_SIZE];
    assert_eq!(f.write_at(&mut fs, 0, &data), data.len());
    assert!(f.check_valid(&mut fs));
    assert!(root.check_valid(&mut fs));
    let first_data_block = fs.data_area_start_block;
    f.clear(&mut fs);
    // the lowest free data block is handed out again after the clear
    assert!(fs.data_bitmap.test(&mut fs.cache, 1) == false);
    assert_eq!(fs.alloc_data(), Some(first_data_block + 1));
}

#[test]
fn read_all_returns_the_file() {
    let (mut fs, root) = reopened();
    let f = root.create(&mut fs, "f").unwrap();
    let data: Vec<u8> = (0..(3 * BLOCK_SIZE as u32 + 17)).map(|i| (i % 13) as u8).collect();
    assert_eq!(f.write_at(&mut fs, 0, &data), data.len());
    assert_eq!(f.read_all(&mut fs), data);
    let g = root.create(&mut fs, "g").unwrap();
    assert!(g.read_all(&mut fs).is_empty());
}

#[test]
fn link_unlink_then_read() {
    let (mut fs, root) = reopened();
    let a = root.create(&mut fs, "a").unwrap();
    let data: Vec<u8> = (0..(5 * BLOCK_SIZE as u32)).map(|i| (i % 7) as u8).collect();
    assert_eq!(a.write_at(&mut fs, 0, &data), data.len());
    assert!(easy_os::vfs::linkat(&mut fs, &root, "a", "b"));
    assert_eq!(root.fstat(&mut fs, &a).nlink, 2);
    assert!(easy_os::vfs::unlinkat(&mut fs, &root, "a"));
    assert!(!easy_os::vfs::unlinkat(&mut fs, &root, "a"));
    assert!(root.find(&mut fs, "a").is_none());
    let b = root.find(&mut fs, "b").unwrap();
    assert_eq!(read_all(&mut fs, &b), data);
    assert_eq!(root.fstat(&mut fs, &b).nlink, 1);
    let ino = root.fstat(&mut fs, &b).ino as usize;
    assert!(fs.inode_bitmap.test(&mut fs.cache, ino));
    assert!(easy_os::vfs::unlinkat(&mut fs, &root, "b"));
    // the inode and its data blocks are free again
    assert!(!fs.inode_bitmap.test(&mut fs.cache, ino));
    assert!(root.ls(&mut fs).is_empty());
    assert!(!fs.data_bitmap.test(&mut fs.cache, 1));
    let c = root.create(&mut fs, "c").unwrap();
    assert_eq!(root.fstat(&mut fs, &c).ino as usize, ino);
}

#[test]
fn fstat_reports_kind_and_links() {
    let (mut fs, root) = reopened();
    let st = root.fstat(&mut fs, &root);
    assert_eq!(st.ino, 0);
    assert!(st.mode == easy_os::vfs::StatMode::Dir);
    assert_eq!(st.nlink, 0);
    let f = root.create(&mut fs, "f").unwrap();
    let st = root.fstat(&mut fs, &f);
    assert_eq!(st.ino, 1);
    assert!(st.mode == easy_os::vfs::StatMode::File);
    assert_eq!(st.nlink, 1);
}

#[test]
fn failed_create_leaves_the_image_alone() {
    let (mut fs, root) = reopened();
    assert!(root.create(&mut fs, "x").is_some());
    let before = fs.count_free_data();
    assert!(root.create(&mut fs, "x").is_none());
    assert!(root.create(&mut fs, "far_too_long_a_name_for_an_entry").is_none());
    assert_eq!(fs.count_free_data(), before);
    // the next inode handed out is still 2
    let y = root.create(&mut fs, "y").unwrap();
    assert_eq!(root.fstat(&mut fs, &y).ino, 2);
}
