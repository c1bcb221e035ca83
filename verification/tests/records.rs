use blockfs::dir::{check_name, DirEntry};
use blockfs::error::Error;
use blockfs::inode::{EntryKind, Inode};
use blockfs::layout::{copy_bytes, get_u32, put_u32, same_bytes};

#[test]
fn integers_are_little_endian() {
    let mut buf = [0xffu8; 8];
    put_u32(&mut buf, 2, 0x0102_0304);
    assert_eq!(buf, [0xff, 0xff, 4, 3, 2, 1, 0xff, 0xff]);
    assert_eq!(get_u32(&buf, 2), 0x0102_0304);
    put_u32(&mut buf, 4, u32::MAX);
    assert_eq!(get_u32(&buf, 4), u32::MAX);
    assert_eq!(get_u32(&buf, 0), 0x0304_ffff);
}

#[test]
fn bytes_are_copied_in_place() {
    let mut dst = [0u8; 6];
    copy_bytes(&mut dst, 1, &[1, 2, 3, 4, 5], 2, 3);
    assert_eq!(dst, [0, 3, 4, 5, 0, 0]);
    copy_bytes(&mut dst, 6, &[9], 1, 0);
    assert_eq!(dst, [0, 3, 4, 5, 0, 0]);
    assert!(same_bytes(&dst[1..4], &[3, 4, 5]));
    assert!(!same_bytes(&dst[1..4], &[3, 4]));
    assert!(!same_bytes(&dst[1..4], &[3, 4, 6]));
    assert!(same_bytes(&[], &[]));
}

#[test]
fn empty_record_round_trip() {
    for kind in [EntryKind::File, EntryKind::Directory] {
        let ino = Inode::empty(kind);
        let block = ino.encode();
        let back = Inode::decode(&block).expect("a record");
        assert_eq!(back.kind, kind);
        assert_eq!((back.size, back.count), (0, 0));
    }
}

#[test]
fn record_with_blocks_round_trip() {
    let mut ino = Inode::empty(EntryKind::File);
    ino.size = 1025;
    ino.count = 3;
    ino.ptrs[0] = 17;
    ino.ptrs[1] = 999;
    ino.ptrs[2] = 5;
    let block = ino.encode();
    assert_eq!(&block[..24], &[1, 0, 0, 0, 1, 4, 0, 0, 3, 0, 0, 0, 17, 0, 0, 0, 0xe7, 3, 0, 0, 5, 0, 0, 0]);
    let back = Inode::decode(&block).expect("a record");
    assert_eq!(back.kind, EntryKind::File);
    assert_eq!((back.size, back.count), (1025, 3));
    assert_eq!(&back.ptrs[..3], &[17, 999, 5]);
}

#[test]
fn record_must_hold_together() {
    let mut ino = Inode::empty(EntryKind::Directory);
    ino.size = 64;
    ino.count = 1;
    ino.ptrs[0] = 9;
    let good = ino.encode();
    assert!(Inode::decode(&good).is_some());
    // an unknown tag
    let mut block = good;
    block[0] = 3;
    assert!(Inode::decode(&block).is_none());
    // more blocks than the length needs
    let mut block = good;
    block[8] = 2;
    assert!(Inode::decode(&block).is_none());
    // a directory that does not hold whole entries
    let mut block = good;
    block[4] = 65;
    assert!(Inode::decode(&block).is_none());
    // a length that no record can describe
    let mut block = good;
    block[4..8].copy_from_slice(&64032u32.to_le_bytes());
    block[8] = 126;
    assert!(Inode::decode(&block).is_none());
    assert!(Inode::decode(&[0u8; 512]).is_none());
}

#[test]
fn entry_round_trip() {
    let e = DirEntry::new(b"notes.txt", EntryKind::File, 77);
    assert_eq!(e.name(), b"notes.txt");
    assert!(e.has_name(b"notes.txt"));
    assert!(!e.has_name(b"notes.tx"));
    assert!(!e.has_name(b"notes.txu"));
    let rec = e.encode();
    assert_eq!(&rec[..8], &[9, 1, 0, 0, 77, 0, 0, 0]);
    assert_eq!(&rec[8..17], b"notes.txt");
    assert!(rec[17..].iter().all(|b| *b == 0));
    let back = DirEntry::decode(&rec).expect("an entry");
    assert_eq!(back.name(), b"notes.txt");
    assert_eq!(back.kind, EntryKind::File);
    assert_eq!(back.location, 77);
}

#[test]
fn entry_must_hold_together() {
    let rec = DirEntry::new(b"d", EntryKind::Directory, 2).encode();
    assert!(DirEntry::decode(&rec).is_some());
    let mut bad = rec;
    bad[0] = 0;
    assert!(DirEntry::decode(&bad).is_none());
    let mut bad = rec;
    bad[0] = 25;
    assert!(DirEntry::decode(&bad).is_none());
    let mut bad = rec;
    bad[1] = 0;
    assert!(DirEntry::decode(&bad).is_none());
    let mut bad = rec;
    bad[4] = 1;
    assert!(DirEntry::decode(&bad).is_none());
    let mut bad = rec;
    bad[4..8].copy_from_slice(&1000u32.to_le_bytes());
    assert!(DirEntry::decode(&bad).is_none());
}

#[test]
fn names_are_checked() {
    assert_eq!(check_name(b"a"), Ok(()));
    assert_eq!(check_name(&[b'x'; 24]), Ok(()));
    assert_eq!(check_name(&[b'x'; 25]), Err(Error::NameTooLong));
    assert_eq!(check_name(b""), Err(Error::InvalidName));
    assert_eq!(check_name(b"a/b"), Err(Error::InvalidName));
    assert_eq!(check_name(b"\0"), Err(Error::InvalidName));
    assert_eq!(check_name(&[b'/'; 30]), Err(Error::NameTooLong));
}
