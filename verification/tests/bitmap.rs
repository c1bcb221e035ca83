use blockfs::bit_array::Bitmap;
use blockfs::layout::NUM_BLOCKS;

#[test]
fn new_bitmap_is_all_clear() {
    let b = Bitmap::new();
    assert_eq!(b.count_clear(), NUM_BLOCKS);
    assert_eq!(b.find_first_clear(), Some(0));
    assert!(!b.get(0));
    assert!(!b.get(NUM_BLOCKS - 1));
}

#[test]
fn set_and_get_one_bit() {
    let mut b = Bitmap::new();
    b.set(9, true);
    assert!(b.get(9));
    assert!(!b.get(8));
    assert!(!b.get(10));
    assert_eq!(b.count_clear(), NUM_BLOCKS - 1);
    b.set(9, false);
    assert!(!b.get(9));
    assert_eq!(b.count_clear(), NUM_BLOCKS);
}

#[test]
fn index_past_capacity_counts_as_used() {
    let mut b = Bitmap::new();
    assert!(b.get(NUM_BLOCKS));
    b.set(NUM_BLOCKS, true);
    assert_eq!(b.count_clear(), NUM_BLOCKS);
}

#[test]
fn find_first_clear_is_lowest() {
    let mut b = Bitmap::new();
    let mut i = 0;
    while i < NUM_BLOCKS {
        b.set(i, true);
        i += 1;
    }
    assert_eq!(b.find_first_clear(), None);
    assert_eq!(b.count_clear(), 0);
    b.set(7, false);
    b.set(2, false);
    b.set(5, false);
    assert_eq!(b.find_first_clear(), Some(2));
    assert_eq!(b.count_clear(), 3);
}

#[test]
fn bytes_round_trip() {
    let mut b = Bitmap::new();
    b.set(0, true);
    b.set(8, true);
    b.set(999, true);
    let mut block = [0xffu8; 512];
    b.to_bytes(&mut block);
    assert_eq!(block[0], 1);
    assert_eq!(block[1], 1);
    assert_eq!(block[124], 0x80);
    assert_eq!(block[125], 0xff);
    let c = Bitmap::from_bytes(&block);
    assert!(c.get(0) && c.get(8) && c.get(999));
    assert_eq!(c.count_clear(), NUM_BLOCKS - 3);
}
