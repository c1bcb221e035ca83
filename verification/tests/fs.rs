use blockfs::block_device::RamDisk;
use blockfs::block_interface::GlobalBlockInterface;
use blockfs::error::{Error, IoError};
use blockfs::fs::{DirectoryView, FileDescriptor, FileMode, FileSystem, SeekFrom, Stats, MAX_OPEN};
use blockfs::inode::EntryKind;
use std::str::FromStr;

fn mounted() -> FileSystem<RamDisk> {
    let mut g = GlobalBlockInterface::new(RamDisk::new());
    assert_eq!(g.try_init(), Ok(()));
    FileSystem::new(g)
}

/// A filesystem on a device on which only `free` blocks are free.
fn with_free(free: u32) -> FileSystem<RamDisk> {
    let mut g = GlobalBlockInterface::new(RamDisk::new());
    assert_eq!(g.try_init(), Ok(()));
    while g.free_blocks() > free {
        g.allocate_block().expect("a free block");
    }
    FileSystem::new(g)
}

fn names(fs: &mut FileSystem<RamDisk>, view: &DirectoryView) -> Vec<(Vec<u8>, EntryKind)> {
    let mut out = Vec::new();
    let mut i = 0;
    loop {
        match fs.entry(view, i).expect("a readable directory") {
            None => break,
            Some(e) => out.push((e.name().to_vec(), e.kind)),
        }
        i += 1;
    }
    assert_eq!(fs.entry_count(view), Ok(i));
    out
}

fn entry_name(
    fs: &mut FileSystem<RamDisk>,
    view: &DirectoryView,
    index: u32,
) -> Result<Option<Vec<u8>>, Error> {
    fs.entry(view, index).map(|e| e.map(|e| e.name().to_vec()))
}

fn read_all(fs: &mut FileSystem<RamDisk>, fd: FileDescriptor) -> Vec<u8> {
    assert_eq!(fs.seek(fd, SeekFrom::Start(0)), Ok(()));
    let mut out = Vec::new();
    let mut buf = [0u8; 300];
    loop {
        let n = fs.read(fd, &mut buf).expect("a readable file");
        if n == 0 {
            break;
        }
        out.extend_from_slice(&buf[..n]);
    }
    out
}

fn pattern(n: usize) -> Vec<u8> {
    (0..n).map(|i| (i * 7 % 253) as u8 + 1).collect()
}

#[test]
fn stats_of_fresh_filesystem() {
    let fs = mounted();
    assert_eq!(fs.fs_stats(), Stats { total_blocks: 1000, free_blocks: 997 });
}

#[test]
fn uninitialized_device_is_refused() {
    let g = GlobalBlockInterface::new(RamDisk::new());
    let mut fs = FileSystem::new(g);
    assert_eq!(fs.fs_stats(), Stats { total_blocks: 0, free_blocks: 0 });
    assert_eq!(fs.root_dir(FileMode::RW), Err(Error::Uninitialized));
    assert_eq!(fs.mkdir(FileDescriptor(0), b"a"), Err(Error::Uninitialized));
    assert_eq!(fs.open(FileDescriptor(0), &[b"a"], FileMode::RW), Err(Error::Uninitialized));
    assert_eq!(fs.rmdir(FileDescriptor(0), &[b"a"]), Err(Error::Uninitialized));
    let mut buf = [0u8; 4];
    assert_eq!(fs.read(FileDescriptor(0), &mut buf), Err(Error::Uninitialized));
    assert_eq!(fs.write(FileDescriptor(0), &buf), Err(Error::Uninitialized));
    assert_eq!(fs.seek(FileDescriptor(0), SeekFrom::Start(0)), Err(Error::Uninitialized));
    assert_eq!(fs.flush(), Err(Error::Uninitialized));
    assert_eq!(fs.close(FileDescriptor(0)), Err(Error::InvalidDescriptor));
}

#[test]
fn root_dir_takes_lowest_slot() {
    let mut fs = mounted();
    assert_eq!(fs.root_dir(FileMode::RW), Ok(FileDescriptor(0)));
    assert_eq!(fs.root_dir(FileMode::MustExist), Ok(FileDescriptor(1)));
    assert_eq!(fs.close(FileDescriptor(0)), Ok(()));
    assert_eq!(fs.root_dir(FileMode::RW), Ok(FileDescriptor(0)));
    assert_eq!(fs.as_directory(FileDescriptor(0)), Ok(DirectoryView { location: 2 }));
}

#[test]
fn round_trip_of_10_512_and_1000_bytes() {
    for n in [10usize, 512, 1000] {
        let mut fs = mounted();
        let root = fs.root_dir(FileMode::RW).unwrap();
        let fd = fs.open(root, &[b"f"], FileMode::RW).unwrap();
        let data = pattern(n);
        assert_eq!(fs.write(fd, &data), Ok(n));
        assert_eq!(fs.seek(fd, SeekFrom::Start(0)), Ok(()));
        let mut back = vec![0u8; n];
        assert_eq!(fs.read(fd, &mut back), Ok(n));
        assert_eq!(back, data);
        // and nothing behind it
        let mut more = [0u8; 8];
        assert_eq!(fs.read(fd, &mut more), Ok(0));
    }
}

#[test]
fn read_is_short_only_at_end_of_file() {
    let mut fs = mounted();
    let root = fs.root_dir(FileMode::RW).unwrap();
    let fd = fs.open(root, &[b"f"], FileMode::RW).unwrap();
    let data = pattern(700);
    assert_eq!(fs.write(fd, &data), Ok(700));
    assert_eq!(fs.seek(fd, SeekFrom::Start(100)), Ok(()));
    let mut buf = [0xEEu8; 512];
    assert_eq!(fs.read(fd, &mut buf), Ok(512));
    assert_eq!(&buf[..], &data[100..612]);
    let mut buf = [0xEEu8; 512];
    assert_eq!(fs.read(fd, &mut buf), Ok(88));
    assert_eq!(&buf[..88], &data[612..]);
    assert!(buf[88..].iter().all(|b| *b == 0xEE));
    assert_eq!(fs.read(fd, &mut buf), Ok(0));
}

#[test]
fn overwrite_in_the_middle_keeps_the_rest() {
    let mut fs = mounted();
    let root = fs.root_dir(FileMode::RW).unwrap();
    let fd = fs.open(root, &[b"f"], FileMode::RW).unwrap();
    let data = pattern(1500);
    assert_eq!(fs.write(fd, &data), Ok(1500));
    assert_eq!(fs.seek(fd, SeekFrom::Start(505)), Ok(()));
    assert_eq!(fs.write(fd, &[0u8; 20]), Ok(20));
    let back = read_all(&mut fs, fd);
    let mut want = data.clone();
    for b in &mut want[505..525] {
        *b = 0;
    }
    assert_eq!(back, want);
}

#[test]
fn write_behind_the_end_fills_with_zeroes() {
    let mut fs = mounted();
    let root = fs.root_dir(FileMode::RW).unwrap();
    let fd = fs.open(root, &[b"f"], FileMode::RW).unwrap();
    assert_eq!(fs.write(fd, &[0xAA; 100]), Ok(100));
    // shrink nothing, but leave stale bytes behind the end out of the game:
    // seek far behind the end, into the third block
    assert_eq!(fs.seek(fd, SeekFrom::Start(1200)), Ok(()));
    assert_eq!(fs.write(fd, &[0xBB; 10]), Ok(10));
    let back = read_all(&mut fs, fd);
    assert_eq!(back.len(), 1210);
    assert!(back[..100].iter().all(|b| *b == 0xAA));
    assert!(back[100..1200].iter().all(|b| *b == 0));
    assert!(back[1200..].iter().all(|b| *b == 0xBB));
    // header, three blocks of the file, one block of the root directory
    assert_eq!(fs.fs_stats().free_blocks, 997 - 5);
}

#[test]
fn empty_write_changes_nothing() {
    let mut fs = mounted();
    let root = fs.root_dir(FileMode::RW).unwrap();
    let fd = fs.open(root, &[b"f"], FileMode::RW).unwrap();
    assert_eq!(fs.seek(fd, SeekFrom::Start(5000)), Ok(()));
    assert_eq!(fs.write(fd, &[]), Ok(0));
    assert_eq!(read_all(&mut fs, fd), Vec::<u8>::new());
}

#[test]
fn seek_from_current_and_end() {
    let mut fs = mounted();
    let root = fs.root_dir(FileMode::RW).unwrap();
    let fd = fs.open(root, &[b"f"], FileMode::RW).unwrap();
    let data = pattern(100);
    assert_eq!(fs.write(fd, &data), Ok(100));
    assert_eq!(fs.seek(fd, SeekFrom::End(-10)), Ok(()));
    let mut buf = [0u8; 32];
    assert_eq!(fs.read(fd, &mut buf), Ok(10));
    assert_eq!(&buf[..10], &data[90..]);
    assert_eq!(fs.seek(fd, SeekFrom::Current(-50)), Ok(()));
    assert_eq!(fs.read(fd, &mut buf), Ok(32));
    assert_eq!(&buf[..], &data[50..82]);
    assert_eq!(fs.seek(fd, SeekFrom::Current(-83)), Err(Error::OutOfRange));
    assert_eq!(fs.seek(fd, SeekFrom::End(-101)), Err(Error::OutOfRange));
    assert_eq!(fs.seek(fd, SeekFrom::Current(i64::MAX)), Err(Error::OutOfRange));
    assert_eq!(fs.seek(fd, SeekFrom::Start(u32::MAX)), Ok(()));
    assert_eq!(fs.seek(fd, SeekFrom::Current(1)), Err(Error::OutOfRange));
    // the failed seek left the offset where it was
    assert_eq!(fs.seek(fd, SeekFrom::Current(-(u32::MAX as i64))), Ok(()));
    assert_eq!(fs.read(fd, &mut buf), Ok(32));
    assert_eq!(&buf[..], &data[..32]);
}

#[test]
fn mkdir_twice_fails_with_already_exists() {
    let mut fs = mounted();
    let root = fs.root_dir(FileMode::RW).unwrap();
    assert_eq!(fs.mkdir(root, b"a"), Ok(()));
    assert_eq!(fs.mkdir(root, b"a"), Err(Error::AlreadyExists));
    let view = fs.as_directory(root).unwrap();
    assert_eq!(names(&mut fs, &view), vec![(b"a".to_vec(), EntryKind::Directory)]);
}

#[test]
fn mkdir_takes_one_block_for_the_directory() {
    let mut fs = mounted();
    let root = fs.root_dir(FileMode::RW).unwrap();
    assert_eq!(fs.mkdir(root, b"a"), Ok(()));
    // one for the new directory, one for the root's first block of entries
    assert_eq!(fs.fs_stats().free_blocks, 995);
    assert_eq!(fs.mkdir(root, b"b"), Ok(()));
    assert_eq!(fs.fs_stats().free_blocks, 994);
}

#[test]
fn mkdir_checks_the_name() {
    let mut fs = mounted();
    let root = fs.root_dir(FileMode::RW).unwrap();
    assert_eq!(fs.mkdir(root, b""), Err(Error::InvalidName));
    assert_eq!(fs.mkdir(root, b"a/b"), Err(Error::InvalidName));
    assert_eq!(fs.mkdir(root, b"a\0"), Err(Error::InvalidName));
    assert_eq!(fs.mkdir(root, b"0123456789012345678901234"), Err(Error::NameTooLong));
    assert_eq!(fs.mkdir(root, b"012345678901234567890123"), Ok(()));
    let view = fs.as_directory(root).unwrap();
    assert_eq!(
        names(&mut fs, &view),
        vec![(b"012345678901234567890123".to_vec(), EntryKind::Directory)]
    );
    assert_eq!(fs.fs_stats().free_blocks, 995);
}

#[test]
fn rmdir_refuses_a_directory_with_entries() {
    let mut fs = mounted();
    let root = fs.root_dir(FileMode::RW).unwrap();
    let before = fs.fs_stats().free_blocks;
    assert_eq!(fs.mkdir(root, b"a"), Ok(()));
    let b = fs.open(root, &[b"a", b"b"], FileMode::RW).unwrap();
    assert_eq!(fs.rmdir(root, &[b"a"]), Err(Error::DirectoryNotEmpty));
    assert_eq!(fs.close(b), Ok(()));
    assert_eq!(fs.remove(root, &[b"a", b"b"]), Ok(()));
    assert_eq!(fs.rmdir(root, &[b"a"]), Ok(()));
    assert_eq!(fs.fs_stats().free_blocks, before);
    let view = fs.as_directory(root).unwrap();
    assert_eq!(names(&mut fs, &view), vec![]);
    assert_eq!(fs.open(root, &[b"a"], FileMode::MustExist), Err(Error::NotFound));
}

#[test]
fn removed_file_gives_its_blocks_back() {
    let mut fs = mounted();
    let root = fs.root_dir(FileMode::RW).unwrap();
    assert_eq!(fs.mkdir(root, b"keep"), Ok(()));
    let before = fs.fs_stats().free_blocks;
    let fd = fs.open(root, &[b"f"], FileMode::RW).unwrap();
    assert_eq!(fs.write(fd, &pattern(3000)), Ok(3000));
    assert_eq!(fs.fs_stats().free_blocks, before - 7);
    assert_eq!(fs.remove(root, &[b"f"]), Ok(()));
    assert_eq!(fs.fs_stats().free_blocks, before);
    // the handle went with the file
    let mut buf = [0u8; 4];
    assert_eq!(fs.read(fd, &mut buf), Err(Error::InvalidDescriptor));
    assert_eq!(fs.close(fd), Err(Error::InvalidDescriptor));
    let view = fs.as_directory(root).unwrap();
    assert_eq!(names(&mut fs, &view), vec![(b"keep".to_vec(), EntryKind::Directory)]);
}

#[test]
fn removing_an_entry_moves_the_last_one_into_its_place() {
    let mut fs = mounted();
    let root = fs.root_dir(FileMode::RW).unwrap();
    for name in [&b"a"[..], b"b", b"c", b"d"] {
        assert_eq!(fs.mkdir(root, name), Ok(()));
    }
    assert_eq!(fs.rmdir(root, &[b"b"]), Ok(()));
    let view = fs.as_directory(root).unwrap();
    assert_eq!(
        names(&mut fs, &view),
        vec![
            (b"a".to_vec(), EntryKind::Directory),
            (b"d".to_vec(), EntryKind::Directory),
            (b"c".to_vec(), EntryKind::Directory),
        ]
    );
    assert_eq!(fs.rmdir(root, &[b"c"]), Ok(()));
    assert_eq!(
        names(&mut fs, &view),
        vec![(b"a".to_vec(), EntryKind::Directory), (b"d".to_vec(), EntryKind::Directory)]
    );
}

#[test]
fn directory_grows_and_shrinks_over_block_boundaries() {
    let mut fs = mounted();
    let root = fs.root_dir(FileMode::RW).unwrap();
    let before = fs.fs_stats().free_blocks;
    let mut made = Vec::new();
    for i in 0..40u8 {
        let name = vec![b'd', b'0' + i / 10, b'0' + i % 10];
        assert_eq!(fs.mkdir(root, &name), Ok(()));
        made.push(name);
    }
    // forty directories and three blocks of entries
    assert_eq!(fs.fs_stats().free_blocks, before - 43);
    let view = fs.as_directory(root).unwrap();
    assert_eq!(names(&mut fs, &view).len(), 40);
    for name in &made {
        let d = fs.open(root, &[name.as_slice()], FileMode::MustExist).unwrap();
        assert_eq!(fs.as_directory(d).map(|_| ()), Ok(()));
        assert_eq!(fs.close(d), Ok(()));
    }
    for name in &made {
        assert_eq!(fs.rmdir(root, &[name.as_slice()]), Ok(()));
    }
    assert_eq!(fs.fs_stats().free_blocks, before);
    assert_eq!(names(&mut fs, &view), vec![]);
}

#[test]
fn exhaustion_writes_the_prefix_that_fits() {
    let k = 3u32;
    // two more blocks for the file's record and the root's block of entries
    let mut fs = with_free(k + 2);
    let root = fs.root_dir(FileMode::RW).unwrap();
    let fd = fs.open(root, &[b"f"], FileMode::RW).unwrap();
    assert_eq!(fs.fs_stats().free_blocks, k);
    let data = pattern((k as usize + 1) * 512);
    assert_eq!(fs.write(fd, &data), Err(Error::NoSpace));
    assert_eq!(fs.fs_stats().free_blocks, 0);
    let back = read_all(&mut fs, fd);
    assert_eq!(back.len(), k as usize * 512);
    assert_eq!(&back[..], &data[..k as usize * 512]);
    // nothing is left for anything else
    assert_eq!(fs.mkdir(root, b"d"), Err(Error::NoSpace));
    assert_eq!(fs.open(root, &[b"g"], FileMode::RW), Err(Error::NoSpace));
}

#[test]
fn failed_write_leaves_the_offset() {
    let mut fs = with_free(3);
    let root = fs.root_dir(FileMode::RW).unwrap();
    let fd = fs.open(root, &[b"f"], FileMode::RW).unwrap();
    assert_eq!(fs.write(fd, &[1u8; 100]), Ok(100));
    assert_eq!(fs.fs_stats().free_blocks, 0);
    assert_eq!(fs.write(fd, &[2u8; 1000]), Err(Error::NoSpace));
    // the offset is still 100: a write that fits goes there
    assert_eq!(fs.write(fd, &[3u8; 4]), Ok(4));
    let back = read_all(&mut fs, fd);
    assert_eq!(back.len(), 512);
    assert!(back[..100].iter().all(|b| *b == 1));
    assert!(back[100..104].iter().all(|b| *b == 3));
    assert!(back[104..].iter().all(|b| *b == 2));
}

#[test]
fn file_cannot_outgrow_its_record() {
    let mut fs = mounted();
    let root = fs.root_dir(FileMode::RW).unwrap();
    let fd = fs.open(root, &[b"f"], FileMode::RW).unwrap();
    let data = pattern(64001);
    assert_eq!(fs.write(fd, &data), Err(Error::NoSpace));
    let back = read_all(&mut fs, fd);
    assert_eq!(back.len(), 64000);
    assert_eq!(&back[..], &data[..64000]);
    assert_eq!(fs.seek(fd, SeekFrom::Start(0)), Ok(()));
    assert_eq!(fs.write(fd, &data[..64000]), Ok(64000));
}

#[test]
fn open_must_exist_does_not_create() {
    let mut fs = mounted();
    let root = fs.root_dir(FileMode::RW).unwrap();
    assert_eq!(fs.open(root, &[b"f"], FileMode::MustExist), Err(Error::NotFound));
    assert_eq!(fs.open(root, &[b"d", b"f"], FileMode::RW), Err(Error::NotFound));
    let view = fs.as_directory(root).unwrap();
    assert_eq!(names(&mut fs, &view), vec![]);
    assert_eq!(fs.fs_stats().free_blocks, 997);
}

#[test]
fn open_existing_file_sees_its_content() {
    let mut fs = mounted();
    let root = fs.root_dir(FileMode::RW).unwrap();
    let fd = fs.open(root, &[b"f"], FileMode::RW).unwrap();
    assert_eq!(fs.write(fd, b"hello"), Ok(5));
    assert_eq!(fs.close(fd), Ok(()));
    let again = fs.open(root, &[b"f"], FileMode::MustExist).unwrap();
    let mut buf = [0u8; 16];
    assert_eq!(fs.read(again, &mut buf), Ok(5));
    assert_eq!(&buf[..5], b"hello");
    let third = fs.open(root, &[b"f"], FileMode::RW).unwrap();
    assert_eq!(fs.read(third, &mut buf), Ok(5));
}

#[test]
fn paths_resolve_through_directories_only() {
    let mut fs = mounted();
    let root = fs.root_dir(FileMode::RW).unwrap();
    assert_eq!(fs.mkdir(root, b"a"), Ok(()));
    let a = fs.open(root, &[b"a"], FileMode::MustExist).unwrap();
    assert_eq!(fs.mkdir(a, b"b"), Ok(()));
    let f = fs.open(root, &[b"a", b"b", b"f"], FileMode::RW).unwrap();
    assert_eq!(fs.write(f, b"x"), Ok(1));
    assert_eq!(
        fs.open(root, &[b"a", b"b", b"f", b"g"], FileMode::RW),
        Err(Error::NotADirectory)
    );
    assert_eq!(fs.mkdir(f, b"g"), Err(Error::NotADirectory));
    assert_eq!(fs.as_directory(f), Err(Error::NotADirectory));
    assert_eq!(fs.rmdir(root, &[b"a", b"b", b"f"]), Err(Error::NotADirectory));
    assert_eq!(fs.remove(root, &[b"a", b"b"]), Err(Error::IsADirectory));
    assert_eq!(fs.open(root, &[b"a", b"b"], FileMode::RW), Err(Error::IsADirectory));
    let b = fs.open(a, &[b"b"], FileMode::MustExist).unwrap();
    let mut buf = [0u8; 4];
    assert_eq!(fs.read(b, &mut buf), Err(Error::IsADirectory));
    assert_eq!(fs.write(b, &buf), Err(Error::IsADirectory));
    assert_eq!(fs.seek(b, SeekFrom::Start(0)), Err(Error::IsADirectory));
    let view = fs.as_directory(b).unwrap();
    assert_eq!(names(&mut fs, &view), vec![(b"f".to_vec(), EntryKind::File)]);
    // an empty path opens the directory once more
    let again = fs.open(b, &[], FileMode::MustExist).unwrap();
    assert_eq!(fs.as_directory(again), Ok(view));
    assert_eq!(fs.rmdir(root, &[]), Err(Error::NotFound));
    assert_eq!(fs.rmdir(root, &[b"a", b"x"]), Err(Error::NotFound));
    assert_eq!(fs.rmdir(root, &[b"x", b"b"]), Err(Error::NotFound));
}

#[test]
fn descriptors_are_checked() {
    let mut fs = mounted();
    let root = fs.root_dir(FileMode::RW).unwrap();
    let fd = fs.open(root, &[b"f"], FileMode::RW).unwrap();
    assert_eq!(fs.close(fd), Ok(()));
    assert_eq!(fs.close(fd), Err(Error::InvalidDescriptor));
    let mut buf = [0u8; 4];
    assert_eq!(fs.read(fd, &mut buf), Err(Error::InvalidDescriptor));
    assert_eq!(fs.write(fd, &buf), Err(Error::InvalidDescriptor));
    assert_eq!(fs.seek(fd, SeekFrom::Start(1)), Err(Error::InvalidDescriptor));
    assert_eq!(fs.mkdir(fd, b"a"), Err(Error::InvalidDescriptor));
    assert_eq!(fs.open(fd, &[b"a"], FileMode::RW), Err(Error::InvalidDescriptor));
    assert_eq!(fs.rmdir(fd, &[b"a"]), Err(Error::InvalidDescriptor));
    assert_eq!(fs.as_directory(fd), Err(Error::InvalidDescriptor));
    assert_eq!(fs.as_directory(FileDescriptor(16)), Err(Error::InvalidDescriptor));
    assert_eq!(fs.close(FileDescriptor(u32::MAX)), Err(Error::InvalidDescriptor));
}

#[test]
fn handle_table_is_bounded() {
    let mut fs = mounted();
    let mut fds = Vec::new();
    for i in 0..MAX_OPEN {
        let fd = fs.root_dir(FileMode::RW).unwrap();
        assert_eq!(fd, FileDescriptor(i as u32));
        fds.push(fd);
    }
    assert_eq!(fs.root_dir(FileMode::RW), Err(Error::NoSpace));
    assert_eq!(fs.open(fds[0], &[b"f"], FileMode::RW), Err(Error::NoSpace));
    // nothing was created on the way
    assert_eq!(fs.fs_stats().free_blocks, 997);
    assert_eq!(fs.close(fds[5]), Ok(()));
    assert_eq!(fs.open(fds[0], &[b"f"], FileMode::RW), Ok(FileDescriptor(5)));
}

#[test]
fn flush_and_close_persist_the_allocation() {
    let mut fs = mounted();
    let root = fs.root_dir(FileMode::RW).unwrap();
    assert_eq!(fs.mkdir(root, b"d"), Ok(()));
    let fd = fs.open(root, &[b"d", b"f"], FileMode::RW).unwrap();
    assert_eq!(fs.write(fd, &pattern(1000)), Ok(1000));
    assert_eq!(fs.close(fd), Ok(()));
    let free = fs.fs_stats().free_blocks;
    let disk = fs.into_inner().into_inner();

    let mut g = GlobalBlockInterface::new(disk);
    assert_eq!(g.try_init(), Ok(()));
    let mut fs = FileSystem::new(g);
    assert_eq!(fs.fs_stats().free_blocks, free);
    let root = fs.root_dir(FileMode::RW).unwrap();
    let fd = fs.open(root, &[b"d", b"f"], FileMode::MustExist).unwrap();
    assert_eq!(read_all(&mut fs, fd), pattern(1000));
    assert_eq!(fs.flush(), Ok(()));
}

#[test]
fn transport_failure_is_surfaced() {
    let mut fs = mounted();
    let root = fs.root_dir(FileMode::RW).unwrap();
    assert_eq!(fs.mkdir(root, b"d"), Ok(()));
    assert_eq!(fs.flush(), Ok(()));
    let root_view = fs.as_directory(root).unwrap();
    let mut disk = fs.into_inner().into_inner();
    // mounting takes two transfers; everything after that fails
    disk.fail_after(2);
    let mut g = GlobalBlockInterface::new(disk);
    assert_eq!(g.try_init(), Ok(()));
    let mut fs = FileSystem::new(g);
    let before = fs.fs_stats();
    let root = fs.root_dir(FileMode::RW).unwrap();
    assert_eq!(fs.mkdir(root, b"e"), Err(Error::IoError(IoError)));
    assert_eq!(fs.open(root, &[b"g"], FileMode::RW), Err(Error::IoError(IoError)));
    assert_eq!(fs.open(root, &[b"d"], FileMode::MustExist), Err(Error::IoError(IoError)));
    assert_eq!(fs.rmdir(root, &[b"d"]), Err(Error::IoError(IoError)));
    assert_eq!(entry_name(&mut fs, &root_view, 0), Err(Error::IoError(IoError)));
    assert_eq!(fs.entry_count(&root_view), Err(Error::IoError(IoError)));
    assert_eq!(fs.fs_stats(), before);
    // nothing was dirtied, so closing needs no transfer
    assert_eq!(fs.close(root), Ok(()));
}

#[test]
fn write_that_fails_on_the_wire_frees_what_it_took() {
    let mut fs = mounted();
    let root = fs.root_dir(FileMode::RW).unwrap();
    let fd = fs.open(root, &[b"f"], FileMode::RW).unwrap();
    assert_eq!(fs.close(fd), Ok(()));
    let free = fs.fs_stats().free_blocks;
    let mut disk = fs.into_inner().into_inner();
    // two transfers to mount, three to open the file, one to load its
    // record, two to zero its new blocks and one for the first block of
    // data: the rest of the data fails
    disk.fail_after(9);
    let mut g = GlobalBlockInterface::new(disk);
    assert_eq!(g.try_init(), Ok(()));
    let mut fs = FileSystem::new(g);
    let root = fs.root_dir(FileMode::RW).unwrap();
    let fd = fs.open(root, &[b"f"], FileMode::MustExist).unwrap();
    assert_eq!(fs.write(fd, &pattern(1000)), Err(Error::IoError(IoError)));
    assert_eq!(fs.fs_stats().free_blocks, free);
    let mut buf = [0u8; 8];
    assert_eq!(fs.read(fd, &mut buf), Err(Error::IoError(IoError)));

    let mut disk = fs.into_inner().into_inner();
    disk.heal();
    let mut g = GlobalBlockInterface::new(disk);
    assert_eq!(g.try_init(), Ok(()));
    let mut fs = FileSystem::new(g);
    assert_eq!(fs.fs_stats().free_blocks, free);
    let root = fs.root_dir(FileMode::RW).unwrap();
    let fd = fs.open(root, &[b"f"], FileMode::MustExist).unwrap();
    // the file is as long as it was, and the offset of the write stands
    assert_eq!(read_all(&mut fs, fd), Vec::<u8>::new());
    assert_eq!(fs.write(fd, &pattern(1000)), Ok(1000));
    assert_eq!(read_all(&mut fs, fd), pattern(1000));
}

#[test]
fn close_of_a_dirty_handle_needs_the_wire() {
    let mut fs = mounted();
    let root = fs.root_dir(FileMode::RW).unwrap();
    assert_eq!(fs.flush(), Ok(()));
    let mut disk = fs.into_inner().into_inner();
    // two transfers to mount, then one to load the root, one to write the
    // new record, one to zero the root's new block, two to write the entry
    // and one to write the root's record
    disk.fail_after(8);
    let mut g = GlobalBlockInterface::new(disk);
    assert_eq!(g.try_init(), Ok(()));
    let mut fs = FileSystem::new(g);
    let root2 = fs.root_dir(FileMode::RW).unwrap();
    assert_eq!(root2, root);
    let fd = fs.open(root, &[b"f"], FileMode::RW).unwrap();
    assert_eq!(fs.close(fd), Err(Error::IoError(IoError)));
    assert_eq!(fs.flush(), Err(Error::IoError(IoError)));
    // the handle is still open
    assert_eq!(fs.as_directory(fd), Err(Error::NotADirectory));
}

#[test]
fn corrupt_record_is_refused() {
    let mut g = GlobalBlockInterface::new(RamDisk::new());
    assert_eq!(g.try_init(), Ok(()));
    let mut fs = FileSystem::new(g);
    let root = fs.root_dir(FileMode::RW).unwrap();
    let fd = fs.open(root, &[b"f"], FileMode::RW).unwrap();
    assert_eq!(fs.write(fd, &pattern(600)), Ok(600));
    assert_eq!(fs.mkdir(root, b"d"), Ok(()));
    assert_eq!(fs.flush(), Ok(()));
    let mut g = fs.into_inner();
    // the file's record lies at block 3: make its two pointers the same
    let mut block = [0u8; 512];
    assert_eq!(g.read_block(3, &mut block), Ok(()));
    let first = [block[12], block[13], block[14], block[15]];
    block[16..20].copy_from_slice(&first);
    assert_eq!(g.write_block(3, &block), Ok(()));
    let mut fs = FileSystem::new(g);
    let root = fs.root_dir(FileMode::RW).unwrap();
    assert_eq!(fs.open(root, &[b"f"], FileMode::MustExist), Err(Error::Corrupted));
    assert_eq!(fs.remove(root, &[b"f"]), Err(Error::Corrupted));
    // the rest of the tree is still there
    let d = fs.open(root, &[b"d"], FileMode::MustExist).unwrap();
    assert_eq!(fs.mkdir(d, b"e"), Ok(()));
}

#[test]
fn corrupt_entry_is_refused() {
    let mut g = GlobalBlockInterface::new(RamDisk::new());
    assert_eq!(g.try_init(), Ok(()));
    let mut fs = FileSystem::new(g);
    let root = fs.root_dir(FileMode::RW).unwrap();
    assert_eq!(fs.mkdir(root, b"a"), Ok(()));
    assert_eq!(fs.mkdir(root, b"b"), Ok(()));
    let mut g = fs.into_inner();
    // the root's entries lie in block 4: spoil the kind of the first one
    assert_eq!(g.write_at(4, 1, &[9]), Ok(()));
    let mut fs = FileSystem::new(g);
    let root = fs.root_dir(FileMode::RW).unwrap();
    let view = fs.as_directory(root).unwrap();
    assert_eq!(entry_name(&mut fs, &view, 0), Err(Error::Corrupted));
    assert_eq!(entry_name(&mut fs, &view, 1), Ok(Some(b"b".to_vec())));
    assert_eq!(entry_name(&mut fs, &view, 2), Ok(None));
    assert_eq!(fs.open(root, &[b"b"], FileMode::MustExist), Err(Error::Corrupted));
    assert_eq!(fs.mkdir(root, b"c"), Err(Error::Corrupted));
}

#[test]
fn stale_view_of_removed_directory_is_refused() {
    let mut fs = mounted();
    let root = fs.root_dir(FileMode::RW).unwrap();
    assert_eq!(fs.mkdir(root, b"a"), Ok(()));
    let a = fs.open(root, &[b"a"], FileMode::MustExist).unwrap();
    let view = fs.as_directory(a).unwrap();
    assert_eq!(fs.rmdir(root, &[b"a"]), Ok(()));
    assert_eq!(fs.as_directory(a), Err(Error::InvalidDescriptor));
    assert_eq!(fs.entry_count(&view), Err(Error::Corrupted));
}

#[test]
fn mode_tokens() {
    assert_eq!(FileMode::parse(b"RW"), Some(FileMode::RW));
    assert_eq!(FileMode::parse(b"MustExist"), Some(FileMode::MustExist));
    assert_eq!(FileMode::parse(b"rw"), None);
    assert_eq!(FileMode::parse(b""), None);
    assert_eq!(FileMode::parse(b"RW "), None);
    assert_eq!(FileMode::from_str("RW"), Ok(FileMode::RW));
    assert_eq!(FileMode::from_str("MustExist"), Ok(FileMode::MustExist));
    assert_eq!(FileMode::from_str("other"), Err(Error::OutOfRange));
}

#[test]
fn descriptor_from_number() {
    assert_eq!(FileDescriptor::from(7), FileDescriptor(7));
    let mut fs = mounted();
    let root = fs.root_dir(FileMode::RW).unwrap();
    assert_eq!(FileDescriptor::from(0), root);
    assert_eq!(fs.close(FileDescriptor::from(0)), Ok(()));
}

#[test]
fn own_errors_come_before_the_wire() {
    let mut fs = mounted();
    let root = fs.root_dir(FileMode::RW).unwrap();
    assert_eq!(fs.mkdir(root, b"d"), Ok(()));
    let d = fs.open(root, &[b"d"], FileMode::MustExist).unwrap();
    assert_eq!(fs.flush(), Ok(()));
    let view = fs.as_directory(root).unwrap();
    let mut disk = fs.into_inner().into_inner();
    // mounting takes two transfers; every later one fails
    disk.fail_after(2);
    let mut g = GlobalBlockInterface::new(disk);
    assert_eq!(g.try_init(), Ok(()));
    let mut fs = FileSystem::new(g);
    let root2 = fs.root_dir(FileMode::RW).unwrap();
    assert_eq!(root2, root);
    let d2 = fs.open(root, &[], FileMode::MustExist).unwrap();
    assert_eq!(d2, d);
    let long = [b'x'; 25];
    assert_eq!(fs.mkdir(root, &long), Err(Error::NameTooLong));
    assert_eq!(fs.mkdir(root, b""), Err(Error::InvalidName));
    assert_eq!(fs.open(root, &[&long[..], b"f"], FileMode::RW), Err(Error::NameTooLong));
    assert_eq!(fs.rmdir(root, &[b"a/b"]), Err(Error::InvalidName));
    assert_eq!(fs.remove(root, &[&long[..]]), Err(Error::NameTooLong));
    let mut buf = [0u8; 4];
    assert_eq!(fs.read(d, &mut buf), Err(Error::IsADirectory));
    assert_eq!(fs.write(d, &buf), Err(Error::IsADirectory));
    assert_eq!(fs.seek(d, SeekFrom::Start(1)), Err(Error::IsADirectory));
    let off = DirectoryView { location: 1000 };
    assert_eq!(fs.entry_count(&off), Err(Error::Corrupted));
    assert_eq!(entry_name(&mut fs, &off, 0), Err(Error::Corrupted));
    let meta = DirectoryView { location: 1 };
    assert_eq!(fs.entry_count(&meta), Err(Error::Corrupted));
    // and where the wire is needed, it fails
    assert_eq!(fs.entry_count(&view), Err(Error::IoError(IoError)));
    assert_eq!(fs.mkdir(root, b"e"), Err(Error::IoError(IoError)));
}

#[test]
fn listing_on_an_uninitialised_device_is_refused() {
    let mut disk = RamDisk::new();
    disk.fail_after(0);
    let mut fs = FileSystem::new(GlobalBlockInterface::new(disk));
    let view = DirectoryView { location: 2 };
    assert_eq!(fs.entry_count(&view), Err(Error::Uninitialized));
    assert_eq!(entry_name(&mut fs, &view, 0), Err(Error::Uninitialized));
}
