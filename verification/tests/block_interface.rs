use blockfs::block_device::RamDisk;
use blockfs::block_interface::{GlobalBlockInterface, Superblock};
use blockfs::error::{Error, IoError};
use blockfs::inode::{EntryKind, Inode};

fn fresh() -> GlobalBlockInterface<RamDisk> {
    let mut g = GlobalBlockInterface::new(RamDisk::new());
    assert_eq!(g.try_init(), Ok(()));
    g
}

#[test]
fn superblock_round_trip() {
    let sb = Superblock { total_blocks: 1000, free_blocks: 997, root: 2 };
    let block = sb.encode();
    assert_eq!(Superblock::decode(&block), Some(sb));
    assert_eq!(Superblock::decode(&[0u8; 512]), None);
}

#[test]
fn superblock_refuses_wrong_geometry() {
    let sb = Superblock { total_blocks: 1000, free_blocks: 10, root: 2 };
    let mut block = sb.encode();
    block[8] = block[8].wrapping_add(1);
    assert_eq!(Superblock::decode(&block), None);
    let mut block = sb.encode();
    block[16] = 1;
    assert_eq!(Superblock::decode(&block), None);
    let mut block = sb.encode();
    block[0] ^= 0xff;
    assert_eq!(Superblock::decode(&block), None);
}

#[test]
fn operations_before_init_are_refused() {
    let mut g = GlobalBlockInterface::new(RamDisk::new());
    assert!(!g.is_initialized());
    assert_eq!(g.allocate_block(), Err(Error::Uninitialized));
    let mut buf = [0u8; 512];
    assert_eq!(g.read_block(5, &mut buf), Err(Error::Uninitialized));
    assert_eq!(g.write_block(5, &buf), Err(Error::Uninitialized));
    assert_eq!(g.flush(), Err(Error::Uninitialized));
    g.free_block(5);
    assert_eq!(g.free_blocks(), 0);
}

#[test]
fn format_reserves_metadata_and_root() {
    let mut g = fresh();
    assert!(g.is_initialized());
    assert_eq!(g.total_blocks(), 1000);
    assert_eq!(g.free_blocks(), 997);
    assert_eq!(g.root(), 2);
    assert!(g.is_used(0) && g.is_used(1) && g.is_used(2));
    assert!(!g.is_used(3));
    let mut block = [0u8; 512];
    assert_eq!(g.read_block(2, &mut block), Ok(()));
    let root = Inode::decode(&block).expect("root record");
    assert_eq!(root.kind, EntryKind::Directory);
    assert_eq!(root.size, 0);
    assert_eq!(root.count, 0);
}

#[test]
fn try_init_twice_is_try_init_once() {
    let mut g = fresh();
    assert_eq!(g.allocate_block(), Ok(3));
    assert_eq!(g.try_init(), Ok(()));
    assert_eq!(g.free_blocks(), 996);
    assert!(g.is_used(3));
}

#[test]
fn try_init_on_formatted_device_mounts_it() {
    let mut g = fresh();
    assert_eq!(g.allocate_block(), Ok(3));
    assert_eq!(g.allocate_block(), Ok(4));
    let marker = [0xEEu8; 512];
    assert_eq!(g.write_block(4, &marker), Ok(()));
    assert_eq!(g.flush(), Ok(()));
    let disk = g.into_inner();

    let mut g = GlobalBlockInterface::new(disk);
    assert_eq!(g.try_init(), Ok(()));
    assert_eq!(g.free_blocks(), 995);
    assert_eq!(g.root(), 2);
    assert!(g.is_used(3) && g.is_used(4) && !g.is_used(5));
    let mut back = [0u8; 512];
    assert_eq!(g.read_block(4, &mut back), Ok(()));
    assert_eq!(back, marker);

    // and once more, with nothing in between
    let disk = g.into_inner();
    let mut before = GlobalBlockInterface::new(disk);
    assert_eq!(before.try_init(), Ok(()));
    let mut sb = [0u8; 512];
    let mut bm = [0u8; 512];
    assert_eq!(before.read_block(0, &mut sb), Ok(()));
    assert_eq!(before.read_block(1, &mut bm), Ok(()));
    let mut again = GlobalBlockInterface::new(before.into_inner());
    assert_eq!(again.try_init(), Ok(()));
    let mut sb2 = [0u8; 512];
    let mut bm2 = [0u8; 512];
    assert_eq!(again.read_block(0, &mut sb2), Ok(()));
    assert_eq!(again.read_block(1, &mut bm2), Ok(()));
    assert_eq!(sb, sb2);
    assert_eq!(bm, bm2);
    assert_eq!(again.free_blocks(), 995);
}

#[test]
fn unflushed_allocation_is_lost_on_remount() {
    let mut g = fresh();
    assert_eq!(g.allocate_block(), Ok(3));
    let mut g = GlobalBlockInterface::new(g.into_inner());
    assert_eq!(g.try_init(), Ok(()));
    assert_eq!(g.free_blocks(), 997);
    assert!(!g.is_used(3));
}

#[test]
fn mount_counts_free_blocks_anew() {
    let mut g = fresh();
    let stale = Superblock { total_blocks: 1000, free_blocks: 5, root: 2 };
    assert_eq!(g.write_block(0, &stale.encode()), Ok(()));
    let mut g = GlobalBlockInterface::new(g.into_inner());
    assert_eq!(g.try_init(), Ok(()));
    assert_eq!(g.free_blocks(), 997);
    let mut block = [0u8; 512];
    assert_eq!(g.read_block(0, &mut block), Ok(()));
    assert_eq!(Superblock::decode(&block).map(|s| s.free_blocks), Some(997));
}

#[test]
fn mount_refuses_bitmap_without_reserved_bits() {
    let mut g = fresh();
    assert_eq!(g.write_block(1, &[0u8; 512]), Ok(()));
    let mut g = GlobalBlockInterface::new(g.into_inner());
    assert_eq!(g.try_init(), Err(Error::Corrupted));
    assert!(!g.is_initialized());
}

#[test]
fn allocation_is_lowest_first() {
    let mut g = fresh();
    // take 3..=9, then free 5 and 7; with 2 as the root this leaves the
    // clear bits below 10 at 5 and 7
    for want in 3..10 {
        assert_eq!(g.allocate_block(), Ok(want));
    }
    g.free_block(7);
    g.free_block(5);
    assert_eq!(g.allocate_block(), Ok(5));
    assert_eq!(g.allocate_block(), Ok(7));
    assert_eq!(g.allocate_block(), Ok(10));
}

#[test]
fn allocation_from_clear_bits_2_5_7() {
    // a device whose root directory lies at block 3, so that block 2 can be
    // free: clear bits at exactly 2, 5 and 7
    let mut disk_side = GlobalBlockInterface::new(RamDisk::new());
    assert_eq!(disk_side.try_init(), Ok(()));
    let sb = Superblock { total_blocks: 1000, free_blocks: 3, root: 3 };
    let mut bitmap = [0xffu8; 512];
    bitmap[0] = !((1 << 2) | (1 << 5) | (1 << 7));
    assert_eq!(disk_side.write_block(1, &bitmap), Ok(()));
    assert_eq!(disk_side.write_block(0, &sb.encode()), Ok(()));
    let mut g = GlobalBlockInterface::new(disk_side.into_inner());
    assert_eq!(g.try_init(), Ok(()));
    assert_eq!(g.free_blocks(), 3);
    assert_eq!(g.allocate_block(), Ok(2));
    assert_eq!(g.allocate_block(), Ok(5));
    assert_eq!(g.allocate_block(), Ok(7));
    assert_eq!(g.allocate_block(), Err(Error::NoSpace));
    assert_eq!(g.free_blocks(), 0);
}

#[test]
fn free_block_leaves_reserved_and_free_blocks_alone() {
    let mut g = fresh();
    g.free_block(0);
    g.free_block(1);
    g.free_block(2);
    g.free_block(3);
    g.free_block(1000);
    g.free_block(u32::MAX);
    assert_eq!(g.free_blocks(), 997);
    assert!(g.is_used(0) && g.is_used(1) && g.is_used(2));
    assert_eq!(g.allocate_block(), Ok(3));
    g.free_block(3);
    g.free_block(3);
    assert_eq!(g.free_blocks(), 997);
}

#[test]
fn block_io_checks_range() {
    let mut g = fresh();
    let mut buf = [0u8; 512];
    assert_eq!(g.read_block(1000, &mut buf), Err(Error::OutOfRange));
    assert_eq!(g.write_block(1000, &buf), Err(Error::OutOfRange));
    assert_eq!(g.write_at(5, 510, &[1, 2, 3]), Err(Error::OutOfRange));
    assert_eq!(g.write_at(5, 509, &[1, 2, 3]), Ok(()));
    assert_eq!(g.read_block(5, &mut buf), Ok(()));
    assert_eq!(&buf[509..], &[1, 2, 3]);
    assert_eq!(buf[508], 0);
}

#[test]
fn block_io_surfaces_transport_failure() {
    let mut disk = RamDisk::new();
    let mut g0 = GlobalBlockInterface::new(RamDisk::new());
    assert_eq!(g0.try_init(), Ok(()));
    disk = {
        let mut d = g0.into_inner();
        d.fail_after(3);
        let _ = disk;
        d
    };
    let mut g = GlobalBlockInterface::new(disk);
    // mounting reads the superblock and the bitmap
    assert_eq!(g.try_init(), Ok(()));
    let mut buf = [0u8; 512];
    assert_eq!(g.read_block(2, &mut buf), Ok(()));
    let mut buf = [0x42u8; 512];
    assert_eq!(g.read_block(2, &mut buf), Err(Error::IoError(IoError)));
    assert_eq!(buf, [0x42u8; 512]);
    assert_eq!(g.write_block(9, &buf), Err(Error::IoError(IoError)));
    assert_eq!(g.allocate_block(), Ok(3));
    assert_eq!(g.flush(), Err(Error::IoError(IoError)));
}

#[test]
fn init_fails_when_transport_fails() {
    let mut disk = RamDisk::new();
    disk.fail_after(2);
    let mut g = GlobalBlockInterface::new(disk);
    assert_eq!(g.try_init(), Err(Error::IoError(IoError)));
    assert!(!g.is_initialized());
}

#[test]
fn flush_persists_bitmap_and_count() {
    let mut g = fresh();
    assert_eq!(g.allocate_block(), Ok(3));
    assert_eq!(g.flush(), Ok(()));
    assert_eq!(g.flush(), Ok(()));
    let mut g = GlobalBlockInterface::new(g.into_inner());
    assert_eq!(g.try_init(), Ok(()));
    assert_eq!(g.free_blocks(), 996);
    assert!(g.is_used(3));
}
