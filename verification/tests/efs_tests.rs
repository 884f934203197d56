use kernel_lib::bitmap::{decomposition, Bitmap};
use kernel_lib::block_cache::{BlockCache, BlockCacheManager, CachedDisk};
use kernel_lib::block_dev::{BlockDevice, MemoryBlockDevice};
use kernel_lib::efs::FileSystem;
use kernel_lib::inode::DiskInode;
use kernel_lib::layout::{DirEntry, SuperBlock};
use kernel_lib::lru::LRUCache;
use kernel_lib::vfs::Inode;

const INODE_BITMAP_BLOCK_NUM: u32 = 1;
const INODE_AREA_BLOCK_NUM: u32 = 64;
const DATA_BITMAP_BLOCK_NUM: u32 = 8;
const DATA_AREA_BLOCK_NUM: u32 = DATA_BITMAP_BLOCK_NUM * 4096;
const TOTAL_BLOCK_NUM: u32 =
    1 + INODE_BITMAP_BLOCK_NUM + INODE_AREA_BLOCK_NUM + DATA_BITMAP_BLOCK_NUM + DATA_AREA_BLOCK_NUM;

fn new_fs() -> FileSystem<MemoryBlockDevice> {
    let block_device = MemoryBlockDevice::new(TOTAL_BLOCK_NUM as usize);
    let fs = FileSystem::create(
        block_device,
        INODE_BITMAP_BLOCK_NUM,
        INODE_AREA_BLOCK_NUM,
        DATA_BITMAP_BLOCK_NUM,
        DATA_AREA_BLOCK_NUM,
    );
    FileSystem::open(fs.into_device())
}

#[test]
fn efs_test() -> std::io::Result<()> {
    let block_device = MemoryBlockDevice::new(TOTAL_BLOCK_NUM as usize);
    let fs = FileSystem::create(
        block_device,
        INODE_BITMAP_BLOCK_NUM,
        INODE_AREA_BLOCK_NUM,
        DATA_BITMAP_BLOCK_NUM,
        DATA_AREA_BLOCK_NUM,
    );
    let mut efs = FileSystem::open(fs.into_device());
    efs.create_inode("filea");
    efs.create_inode("fileb");
    for name in efs.ls() {
        println!("{}", name);
    }
    let filea = efs.find("filea").unwrap();
    let greet_str = "Hello, world!";
    efs.write_at(filea, 0, greet_str.as_bytes());
    let mut buffer = [0u8; 233];
    let len = efs.read_at(filea, 0, &mut buffer);
    assert_eq!(greet_str, core::str::from_utf8(&buffer[..len]).unwrap(),);

    efs.clear(filea);
    assert_eq!(efs.read_at(filea, 0, &mut buffer), 0);
    Ok(())
}

#[test]
fn create_then_find_and_ls() {
    let mut efs = new_fs();
    let a = efs.create_inode("alpha").unwrap();
    let b = efs.create_inode("beta").unwrap();
    assert_ne!(a, b);
    // the first file gets inode 1, right after the root directory
    assert_eq!(a, 1 + INODE_BITMAP_BLOCK_NUM as usize + 1);
    assert_eq!(b, a + 1);
    assert_eq!(efs.find("alpha"), Some(a));
    assert_eq!(efs.find("beta"), Some(b));
    assert_eq!(efs.find("gamma"), None);
    assert_eq!(efs.ls(), vec!["alpha".to_string(), "beta".to_string()]);
}

#[test]
fn create_twice_is_refused() {
    let mut efs = new_fs();
    assert!(efs.create_inode("same").is_some());
    assert_eq!(efs.create_inode("same"), None);
    assert_eq!(efs.ls().len(), 1);
}

#[test]
fn new_file_is_empty() {
    let mut efs = new_fs();
    let f = efs.create_inode("empty").unwrap();
    let mut buf = [7u8; 16];
    assert_eq!(efs.read_at(f, 0, &mut buf), 0);
    assert_eq!(buf, [7u8; 16]);
}

#[test]
fn read_after_write_across_indirect_blocks() {
    let mut efs = new_fs();
    let f = efs.create_inode("big").unwrap();
    // 70 blocks: past the 63 direct blocks, into the first indirect block
    let data: Vec<u8> = (0..70 * 512 + 100).map(|i| (i % 251) as u8).collect();
    assert_eq!(efs.write_at(f, 0, &data), data.len());
    let mut back = vec![0u8; data.len() + 10];
    let n = efs.read_at(f, 0, &mut back);
    assert_eq!(n, data.len());
    assert_eq!(&back[..n], &data[..]);
    // a read from the middle stops at the end of the file
    let mut tail = vec![0u8; 1000];
    let m = efs.read_at(f, data.len() - 300, &mut tail);
    assert_eq!(m, 300);
    assert_eq!(&tail[..300], &data[data.len() - 300..]);
}

#[test]
fn overwrite_keeps_other_bytes() {
    let mut efs = new_fs();
    let f = efs.create_inode("f").unwrap();
    efs.write_at(f, 0, b"abcdefghij");
    efs.write_at(f, 3, b"XYZ");
    let mut buf = [0u8; 10];
    assert_eq!(efs.read_at(f, 0, &mut buf), 10);
    assert_eq!(&buf, b"abcXYZghij");
    // writing past the end grows the file
    efs.write_at(f, 10, b"kl");
    let mut buf2 = [0u8; 20];
    assert_eq!(efs.read_at(f, 0, &mut buf2), 12);
    assert_eq!(&buf2[..12], b"abcXYZghijkl");
}

#[test]
fn clear_then_write_again() {
    let mut efs = new_fs();
    let f = efs.create_inode("f").unwrap();
    let data = vec![5u8; 64 * 512];
    efs.write_at(f, 0, &data);
    efs.clear(f);
    let mut buf = [0u8; 8];
    assert_eq!(efs.read_at(f, 0, &mut buf), 0);
    efs.write_at(f, 0, b"again");
    assert_eq!(efs.read_at(f, 0, &mut buf), 5);
    assert_eq!(&buf[..5], b"again");
}

#[test]
fn files_stay_apart() {
    let mut efs = new_fs();
    let a = efs.create_inode("a").unwrap();
    let b = efs.create_inode("b").unwrap();
    efs.write_at(a, 0, &vec![1u8; 2000]);
    efs.write_at(b, 0, &vec![2u8; 2000]);
    let mut buf = vec![0u8; 2000];
    efs.read_at(a, 0, &mut buf);
    assert!(buf.iter().all(|&x| x == 1));
    efs.read_at(b, 0, &mut buf);
    assert!(buf.iter().all(|&x| x == 2));
}

#[test]
fn data_survives_reopen() {
    let mut efs = new_fs();
    let f = efs.create_inode("keep").unwrap();
    efs.write_at(f, 0, b"persistent");
    let mut efs2 = FileSystem::open(efs.into_device());
    let g = efs2.find("keep").unwrap();
    assert_eq!(g, f);
    let mut buf = [0u8; 10];
    assert_eq!(efs2.read_at(g, 0, &mut buf), 10);
    assert_eq!(&buf, b"persistent");
}

#[test]
fn vfs_inode_operations() {
    let mut efs = new_fs();
    let root = Inode::new(1 + INODE_BITMAP_BLOCK_NUM);
    let f = root.create(&mut efs, "hello").unwrap();
    assert!(root.create(&mut efs, "hello").is_none());
    assert_eq!(root.ls(&mut efs), vec!["hello".to_string()]);
    let g = root.find(&mut efs, "hello").unwrap();
    assert_eq!(g.write_at(&mut efs, 0, b"vfs"), 3);
    let mut buf = [0u8; 4];
    assert_eq!(f.read_at(&mut efs, 0, &mut buf), 3);
    assert_eq!(&buf[..3], b"vfs");
    f.clear(&mut efs);
    assert_eq!(f.read_at(&mut efs, 0, &mut buf), 0);
    assert!(root.find(&mut efs, "nothing").is_none());
}

#[test]
fn bitmap_alloc_then_dealloc() {
    let mut disk = CachedDisk::new(MemoryBlockDevice::new(4));
    let bm = Bitmap::new(1, 1);
    assert_eq!(bm.maximum(), 4096);
    assert_eq!(bm.allocate(&mut disk), Some(0));
    assert_eq!(bm.allocate(&mut disk), Some(1));
    bm.dealloc(&mut disk, 0);
    assert_eq!(bm.allocate(&mut disk), Some(0));
    assert_eq!(bm.allocate(&mut disk), Some(2));
}

#[test]
fn bitmap_full_gives_none() {
    let mut disk = CachedDisk::new(MemoryBlockDevice::new(2));
    let bm = Bitmap::new(1, 1);
    for i in 0..4096 {
        assert_eq!(bm.allocate(&mut disk), Some(i));
    }
    assert_eq!(bm.allocate(&mut disk), None);
}

#[test]
fn decomposition_of_bits() {
    assert_eq!(decomposition(0), (0, 0, 0));
    assert_eq!(decomposition(4096 + 65), (1, 1, 1));
    assert_eq!(decomposition(4095), (0, 63, 63));
}

#[test]
fn disk_inode_sizes() {
    assert_eq!(DiskInode::total_blocks(0), 0);
    assert_eq!(DiskInode::total_blocks(512), 1);
    assert_eq!(DiskInode::total_blocks(513), 2);
    assert_eq!(DiskInode::total_blocks(63 * 512), 63);
    assert_eq!(DiskInode::total_blocks(64 * 512), 65);
    assert_eq!(DiskInode::total_blocks((63 + 129) * 512), 63 + 129 + 2);
    let inode = DiskInode::new();
    assert_eq!(inode.data_blocks(), 0);
    assert_eq!(inode.blocks_num_needed(64 * 512), 65);
}

#[test]
fn super_block_roundtrip() {
    let sb = SuperBlock::new(1, 2, 3, 4);
    let bytes = sb.to_bytes();
    assert_eq!(bytes.len(), 16);
    let back = SuperBlock::from_bytes(&bytes);
    assert_eq!(back.inode_bitmap_block_num, 1);
    assert_eq!(back.inode_area_block_num, 2);
    assert_eq!(back.data_bitmap_block_num, 3);
    assert_eq!(back.data_area_block_num, 4);
}

#[test]
fn dir_entry_roundtrip() {
    let e = DirEntry::new("abc", 7);
    assert_eq!(e.name(), "abc");
    assert_eq!(e.inode_number(), 7);
    let bytes = e.to_bytes();
    assert_eq!(bytes.len(), 32);
    let back = DirEntry::from_bytes(&bytes);
    assert_eq!(back.name(), "abc");
    assert!(back.name_is(b"abc"));
    assert!(!back.name_is(b"abd"));
    assert_eq!(back.inode_number(), 7);
    assert_eq!(DirEntry::empty().name(), "");
}

#[test]
fn lru_evicts_least_recently_used() {
    let mut lru: LRUCache<u32> = LRUCache::new(2);
    assert!(lru.set(1, 10).is_none());
    assert!(lru.set(2, 20).is_none());
    assert_eq!(lru.get(&1), Some(&10));
    // 2 is now the least recently used
    assert_eq!(lru.set(3, 30), Some((2, 20)));
    assert_eq!(lru.get(&2), None);
    assert_eq!(lru.get(&3), Some(&30));
    assert_eq!(lru.values().len(), 2);
}

#[test]
fn block_cache_write_back() {
    let mut dev = MemoryBlockDevice::new(4);
    let mut cache = BlockCache::new(2, &dev);
    cache.modify(10, &[1, 2, 3]);
    assert_eq!(cache.read(10, 3), vec![1, 2, 3]);
    let mut buf = vec![0u8; 512];
    dev.read_block(2, &mut buf);
    assert_eq!(&buf[10..13], &[0, 0, 0]);
    cache.sync(&mut dev);
    dev.read_block(2, &mut buf);
    assert_eq!(&buf[10..13], &[1, 2, 3]);
}

#[test]
fn block_cache_manager_keeps_writes() {
    let mut dev = MemoryBlockDevice::new(40);
    let mut manager = BlockCacheManager::new();
    for i in 0..40usize {
        manager.modify_block(i, 0, &[i as u8], &mut dev);
    }
    for i in 0..40usize {
        assert_eq!(manager.read_block(i, &mut dev)[0], i as u8);
    }
    manager.sync_all(&mut dev);
    let mut buf = vec![0u8; 512];
    dev.read_block(39, &mut buf);
    assert_eq!(buf[0], 39);
}

#[test]
fn clear_file_past_full_indirect_block() {
    let mut efs = new_fs();
    let f = efs.create_inode("f").unwrap();
    let g = efs.create_inode("g").unwrap();
    let data = vec![7u8; 98304];
    efs.write_at(f, 0, &data);
    efs.write_at(g, 0, b"keep");
    efs.clear(f);
    let mut buf = [0u8; 8];
    assert_eq!(efs.read_at(f, 0, &mut buf), 0);
    assert_eq!(efs.read_at(g, 0, &mut buf), 4);
    assert_eq!(&buf[..4], b"keep");
    efs.write_at(f, 0, &data);
    let mut back = vec![0u8; 98304];
    assert_eq!(efs.read_at(f, 0, &mut back), 98304);
    assert!(back.iter().all(|&x| x == 7));
}

#[test]
fn empty_write_far_past_end() {
    let mut efs = new_fs();
    let f = efs.create_inode("f").unwrap();
    efs.write_at(f, 0, b"abc");
    assert_eq!(efs.write_at(f, 70 * 512, b""), 0);
    let mut buf = [0u8; 3];
    assert_eq!(efs.read_at(f, 0, &mut buf), 3);
    assert_eq!(&buf, b"abc");
    let mut tail = [1u8; 4];
    assert_eq!(efs.read_at(f, 70 * 512 - 4, &mut tail), 4);
}

#[test]
fn create_zeroes_every_block_but_the_super_block() {
    let mut block_device = MemoryBlockDevice::new(TOTAL_BLOCK_NUM as usize);
    let last = (TOTAL_BLOCK_NUM - 1) as usize;
    block_device.write_block(last, &[0xAAu8; 512]);
    block_device.write_block(2 + INODE_BITMAP_BLOCK_NUM as usize, &[0x55u8; 512]);
    let fs = FileSystem::create(
        block_device,
        INODE_BITMAP_BLOCK_NUM,
        INODE_AREA_BLOCK_NUM,
        DATA_BITMAP_BLOCK_NUM,
        DATA_AREA_BLOCK_NUM,
    );
    let dev = fs.into_device();
    let mut buf = [1u8; 512];
    dev.read_block(last, &mut buf);
    assert!(buf.iter().all(|&x| x == 0));
    dev.read_block(2 + INODE_BITMAP_BLOCK_NUM as usize, &mut buf);
    assert!(buf.iter().all(|&x| x == 0));
}

#[test]
fn grow_file_to_full_first_indirect_block() {
    let mut efs = new_fs();
    let f = efs.create_inode("big").unwrap();
    let g = efs.create_inode("small").unwrap();
    efs.write_at(g, 0, b"keep");
    let data: Vec<u8> = (0..97792u32).map(|i| (i % 251) as u8).collect();
    assert_eq!(efs.write_at(f, 0, &data[..97281]), 97281);
    assert_eq!(efs.write_at(f, 97281, &data[97281..]), 97792 - 97281);
    let mut back = vec![0u8; 97792];
    assert_eq!(efs.read_at(f, 0, &mut back), 97792);
    assert!(back == data);
    let mut buf = [0u8; 4];
    assert_eq!(efs.read_at(g, 0, &mut buf), 4);
    assert_eq!(&buf, b"keep");
    efs.clear(f);
    assert_eq!(efs.read_at(f, 0, &mut back), 0);
    let one_block = vec![3u8; 63 * 512 + 128 * 512];
    assert_eq!(efs.write_at(f, 0, &one_block), one_block.len());
    let mut again = vec![0u8; one_block.len()];
    assert_eq!(efs.read_at(f, 0, &mut again), one_block.len());
    assert!(again == one_block);
}

#[test]
fn increase_size_to_one_full_indirect_block() {
    let mut disk = CachedDisk::new(MemoryBlockDevice::new(1200));
    let mut d = DiskInode::new();
    assert_eq!(d.blocks_num_needed(97792), 192);
    let v: Vec<u32> = (1000..1192).collect();
    d.increase_size(97792, v, &mut disk);
    assert_eq!(d.size, 97792);
    for k in 0..63 {
        assert_eq!(d.direct[k], 1000 + k as u32);
    }
    assert_eq!(d.indirect[0], 1063);
    assert_eq!(d.indirect[1], 0);
    for j in 0..128u32 {
        assert_eq!(d.get_block_id(63 + j, &mut disk), 1064 + j);
    }
}

#[test]
fn create_on_a_device_of_exactly_the_areas() {
    for da in [10u32, 0u32] {
        let total = 1 + 1 + 4 + 1 + da;
        let mut block_device = MemoryBlockDevice::new(total as usize);
        block_device.write_block((total - 1) as usize, &[0x77u8; 512]);
        let fs = FileSystem::create(block_device, 1, 4, 1, da);
        let dev = fs.into_device();
        assert_eq!(dev.num_blocks(), total as usize);
        let mut buf = [0u8; 512];
        dev.read_block(0, &mut buf);
        let sb = SuperBlock::from_bytes(&buf);
        assert_eq!(
            (sb.inode_bitmap_block_num, sb.inode_area_block_num, sb.data_bitmap_block_num, sb.data_area_block_num),
            (1, 4, 1, da)
        );
        dev.read_block(1, &mut buf);
        assert_eq!(buf[0], 1);
        assert!(buf[1..].iter().all(|&x| x == 0));
        for b in 3..total as usize {
            dev.read_block(b, &mut buf);
            assert!(buf.iter().all(|&x| x == 0));
        }
        let reopened = FileSystem::open(dev);
        assert_eq!(reopened.get_inode_block_id(0), 2);
    }
}
