use blockfs::block_device::{BlockDevice, RamDisk};
use blockfs::error::IoError;
use blockfs::sector::SectorAdapter;

#[test]
fn ram_disk_starts_zeroed() {
    let mut d = RamDisk::new();
    let mut buf = [7u8; 512];
    assert_eq!(d.read(0, &mut buf), Ok(512));
    assert!(buf.iter().all(|b| *b == 0));
    assert_eq!(d.read(999, &mut buf), Ok(512));
    assert_eq!(d.read(1000, &mut buf), Err(IoError));
}

#[test]
fn ram_disk_keeps_what_is_written() {
    let mut d = RamDisk::new();
    let block = [0x5au8; 512];
    assert_eq!(d.write(3, &block), Ok(512));
    let mut buf = [0u8; 512];
    assert_eq!(d.read(3, &mut buf), Ok(512));
    assert_eq!(buf, block);
    assert_eq!(d.read(4, &mut buf), Ok(512));
    assert_eq!(buf, [0u8; 512]);
    assert_eq!(d.write(1000, &block), Err(IoError));
}

#[test]
fn ram_disk_fails_after_budget() {
    let mut d = RamDisk::new();
    d.fail_after(2);
    let mut buf = [0u8; 512];
    assert_eq!(d.read(0, &mut buf), Ok(512));
    assert_eq!(d.write(0, &buf), Ok(512));
    assert_eq!(d.read(0, &mut buf), Err(IoError));
    assert_eq!(d.write(0, &buf), Err(IoError));
    d.heal();
    assert_eq!(d.read(0, &mut buf), Ok(512));
}

#[test]
fn unaligned_write_preserves_rest_of_sector() {
    let mut a = SectorAdapter::new(RamDisk::new());
    let full = [0xAAu8; 512];
    assert_eq!(a.write(512 * 4, &full), Ok(512));
    let patch = [0xBBu8; 10];
    assert_eq!(a.write(512 * 4 + 5, &patch), Ok(10));
    let mut back = [0u8; 512];
    assert_eq!(a.read(512 * 4, &mut back), Ok(512));
    for i in 0..512 {
        let want = if (5..15).contains(&i) { 0xBB } else { 0xAA };
        assert_eq!(back[i], want, "byte {}", i);
    }
}

#[test]
fn write_across_sectors_with_remainder() {
    let mut a = SectorAdapter::new(RamDisk::new());
    let base = [0x11u8; 2048];
    assert_eq!(a.write(0, &base), Ok(2048));
    let mut data = [0u8; 1000];
    for i in 0..1000 {
        data[i] = (i % 251) as u8;
    }
    assert_eq!(a.write(300, &data), Ok(1000));
    let mut back = [0u8; 2048];
    assert_eq!(a.read(0, &mut back), Ok(2048));
    for i in 0..2048 {
        let want = if (300..1300).contains(&i) { ((i - 300) % 251) as u8 } else { 0x11 };
        assert_eq!(back[i], want, "byte {}", i);
    }
}

#[test]
fn read_does_not_touch_buffer_past_count() {
    let mut a = SectorAdapter::new(RamDisk::new());
    let data = [9u8; 20];
    assert_eq!(a.write(512_000 - 20, &data), Ok(20));
    let mut buf = [0x77u8; 32];
    assert_eq!(a.read(512_000 - 20, &mut buf), Ok(20));
    assert_eq!(&buf[..20], &[9u8; 20]);
    assert_eq!(&buf[20..], &[0x77u8; 12]);
}

#[test]
fn transfer_is_cut_at_device_end() {
    let mut a = SectorAdapter::new(RamDisk::new());
    let data = [3u8; 100];
    assert_eq!(a.write(512_000 - 40, &data), Ok(40));
    assert_eq!(a.write(512_000, &data), Ok(0));
    assert_eq!(a.write(600_000, &data), Ok(0));
    let mut buf = [0u8; 100];
    assert_eq!(a.read(512_000, &mut buf), Ok(0));
    assert_eq!(a.read(512_000 - 40, &mut buf), Ok(40));
    assert_eq!(&buf[..40], &[3u8; 40]);
}

#[test]
fn empty_transfer_moves_nothing() {
    let mut a = SectorAdapter::new(RamDisk::new());
    let mut buf: [u8; 0] = [];
    assert_eq!(a.write(17, &buf), Ok(0));
    assert_eq!(a.read(17, &mut buf), Ok(0));
}

#[test]
fn failed_write_stops_at_sector_boundary() {
    let mut disk = RamDisk::new();
    // one read and one write for the partly written first sector, then the
    // write of the second sector fails
    disk.fail_after(2);
    let mut a = SectorAdapter::new(disk);
    let data = [0xCDu8; 600];
    assert_eq!(a.write(500, &data), Err(IoError));
    let mut disk = a.into_inner();
    disk.heal();
    let mut a = SectorAdapter::new(disk);
    let mut back = [0u8; 1536];
    assert_eq!(a.read(0, &mut back), Ok(1536));
    for i in 0..1536 {
        let want = if (500..512).contains(&i) { 0xCD } else { 0 };
        assert_eq!(back[i], want, "byte {}", i);
    }
}

#[test]
fn empty_transfer_succeeds_on_a_failing_device() {
    let mut disk = RamDisk::new();
    disk.fail_after(0);
    let mut a = SectorAdapter::new(disk);
    let mut buf: [u8; 0] = [];
    assert_eq!(a.read(0, &mut buf), Ok(0));
    assert_eq!(a.write(0, &buf), Ok(0));
    let mut some = [0u8; 4];
    assert_eq!(a.read(512_000, &mut some), Ok(0));
    assert_eq!(a.write(512_000, &some), Ok(0));
}

#[test]
fn adapter_surfaces_transport_error_on_read() {
    let mut disk = RamDisk::new();
    disk.fail_after(0);
    let mut a = SectorAdapter::new(disk);
    let mut buf = [1u8; 8];
    assert_eq!(a.read(0, &mut buf), Err(IoError));
}

#[test]
fn whole_sectors_are_written_without_a_read() {
    let mut disk = RamDisk::new();
    disk.fail_after(2);
    let mut a = SectorAdapter::new(disk);
    // two whole sectors: two transfers, both writes
    assert_eq!(a.write(512, &[7u8; 1024]), Ok(1024));
    // the budget is spent to the last transfer
    let mut buf = [0u8; 1];
    assert_eq!(a.read(0, &mut buf), Err(IoError));
}

#[test]
fn part_of_a_sector_is_read_and_then_written() {
    let mut disk = RamDisk::new();
    disk.fail_after(2);
    let mut a = SectorAdapter::new(disk);
    assert_eq!(a.write(5, &[7u8; 10]), Ok(10));
    let mut buf = [0u8; 1];
    assert_eq!(a.read(0, &mut buf), Err(IoError));

    // a write over the end of one sector into the next: a read and a write
    // for each of the two
    let mut disk = RamDisk::new();
    disk.fail_after(3);
    let mut a = SectorAdapter::new(disk);
    assert_eq!(a.write(510, &[7u8; 4]), Err(IoError));
    let mut disk = a.into_inner();
    disk.fail_after(4);
    let mut a = SectorAdapter::new(disk);
    assert_eq!(a.write(510, &[7u8; 4]), Ok(4));
}

#[test]
fn every_sector_touched_is_read_once() {
    let mut disk = RamDisk::new();
    disk.fail_after(3);
    let mut a = SectorAdapter::new(disk);
    let mut buf = [0u8; 1025];
    // bytes 511 to 1535 touch sectors 0, 1 and 2
    assert_eq!(a.read(511, &mut buf), Ok(1025));
    assert_eq!(a.read(0, &mut buf[..1]), Err(IoError));
}
