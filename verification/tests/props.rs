use blockfs::props::{null_terminated_str, regs_to_usize};

#[test]
fn nul_at_the_end_is_dropped() {
    assert_eq!(null_terminated_str(b"/pl011@9000000\0"), b"/pl011@9000000");
    assert_eq!(null_terminated_str(b"abc"), b"abc");
    assert_eq!(null_terminated_str(b"a\0\0"), b"a\0");
    assert_eq!(null_terminated_str(b"\0"), b"");
    assert_eq!(null_terminated_str(b"a\0b"), b"a\0b");
}

#[test]
fn one_cell_is_a_big_endian_u32() {
    let regs = [0x09, 0x00, 0x00, 0x00, 0xaa, 0xbb];
    let (v, rest) = regs_to_usize(&regs, 1);
    assert_eq!(v, 0x0900_0000);
    assert_eq!(rest, &[0xaa, 0xbb]);
}

#[test]
fn two_cells_are_a_big_endian_u64() {
    let regs = [0, 0, 0, 0, 0x09, 0, 0, 0, 0, 0, 0, 0, 0, 0, 0x10, 0];
    let (addr, rest) = regs_to_usize(&regs, 2);
    assert_eq!(addr, 0x0900_0000);
    let (size, rest) = regs_to_usize(rest, 2);
    assert_eq!(size, 0x1000);
    assert_eq!(rest, &[] as &[u8]);
    let regs = [0x01, 0x23, 0x45, 0x67, 0x89, 0xab, 0xcd, 0xef];
    assert_eq!(regs_to_usize(&regs, 2).0, 0x0123_4567_89ab_cdef);
}

#[test]
fn no_cell_is_zero() {
    let regs = [1, 2, 3];
    let (v, rest) = regs_to_usize(&regs, 0);
    assert_eq!(v, 0);
    assert_eq!(rest, &[1, 2, 3]);
}

#[test]
fn three_cells_keep_the_low_64_bits() {
    let regs = [0xff, 0xff, 0xff, 0xff, 0, 0, 0, 1, 0, 0, 0, 2];
    let (v, rest) = regs_to_usize(&regs, 3);
    assert_eq!(v, 0x0000_0001_0000_0002);
    assert_eq!(rest, &[] as &[u8]);
}
