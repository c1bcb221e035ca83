//! Sizes of the device and of the structures kept on it, and the byte order of
//! the integers stored there.

use vstd::prelude::*;

verus! {

/// Bytes in one sector, which is also one logical block.
pub const BLOCK_SIZE: usize = 512;

/// Blocks on the device.
pub const NUM_BLOCKS: usize = 1000;

/// Bytes on the device.
pub const DEVICE_BYTES: usize = 512000;

/// Bytes of the packed free-space bitmap, one bit per block.
pub const BITMAP_BYTES: usize = 125;

/// Block that holds the superblock.
pub const SUPERBLOCK_INDEX: u32 = 0;

/// Block that holds the bitmap.
pub const BITMAP_INDEX: u32 = 1;

/// Blocks reserved for metadata at the start of the device.
pub const RESERVED_BLOCKS: u32 = 2;

/// Block given to the root directory when the device is formatted.
pub const ROOT_INDEX: u32 = 2;

/// A little-endian 32-bit integer read from `s` at `at`.
pub open spec fn le32(s: Seq<u8>, at: int) -> int {
    s[at] + 256 * s[at + 1] + 65536 * s[at + 2] + 16777216 * s[at + 3]
}

/// `s` with the bytes of `data` laid over it from `at` on; what does not fit
/// is left out.
pub open spec fn patch(s: Seq<u8>, at: int, data: Seq<u8>) -> Seq<u8> {
    Seq::new(s.len(), |i: int| if at <= i < at + data.len() { data[i - at] } else { s[i] })
}

/// Reads the little-endian integer at `at`.
pub fn get_u32(buf: &[u8], at: usize) -> (v: u32)
    requires
        at + 4 <= buf@.len(),
    ensures
        v == le32(buf@, at as int),
{
    let b0: u32 = buf[at] as u32;
    let b1: u32 = buf[at + 1] as u32;
    let b2: u32 = buf[at + 2] as u32;
    let b3: u32 = buf[at + 3] as u32;
    b0 + 256 * b1 + 65536 * b2 + 16777216 * b3
}

/// Stores `v` at `at` in little-endian order and touches nothing else.
pub fn put_u32(buf: &mut [u8], at: usize, v: u32)
    requires
        at + 4 <= old(buf)@.len(),
    ensures
        final(buf)@.len() == old(buf)@.len(),
        le32(final(buf)@, at as int) == v,
        forall|i: int|
            0 <= i < old(buf)@.len() && !(at <= i < at + 4) ==> final(buf)@[i] == old(buf)@[i],
{
    buf[at] = (v % 256) as u8;
    buf[at + 1] = ((v / 256) % 256) as u8;
    buf[at + 2] = ((v / 65536) % 256) as u8;
    buf[at + 3] = (v / 16777216) as u8;
}

/// Copies `n` bytes of `src`, from `from` on, over `dst` from `at` on.
pub fn copy_bytes(dst: &mut [u8], at: usize, src: &[u8], from: usize, n: usize)
    requires
        at + n <= old(dst)@.len(),
        from + n <= src@.len(),
    ensures
        final(dst)@ == patch(old(dst)@, at as int, src@.subrange(from as int, from + n)),
{
    let dst_len: usize = dst.len();
    let src_len: usize = src.len();
    let mut k: usize = 0;
    while k < n
        invariant
            k <= n,
            at + n <= dst_len,
            from + n <= src_len,
            dst_len == dst@.len(),
            src_len == src@.len(),
            dst@.len() == old(dst)@.len(),
            forall|i: int|
                0 <= i < dst@.len() ==> dst@[i] == if at <= i < at + k {
                    src@[i - at + from]
                } else {
                    old(dst)@[i]
                },
        decreases n - k,
    {
        dst[at + k] = src[from + k];
        k += 1;
    }
    proof {
        assert(dst@ =~= patch(old(dst)@, at as int, src@.subrange(from as int, from + n)));
    }
}

/// Whether two runs of bytes are the same.
pub fn same_bytes(a: &[u8], b: &[u8]) -> (r: bool)
    ensures
        r == (a@ == b@),
{
    let n: usize = a.len();
    if b.len() != n {
        return false;
    }
    let mut i: usize = 0;
    while i < n
        invariant
            i <= n,
            n == a@.len(),
            n == b@.len(),
            forall|j: int| 0 <= j < i ==> a@[j] == b@[j],
        decreases n - i,
    {
        if a[i] != b[i] {
            return false;
        }
        i += 1;
    }
    proof {
        assert(a@ =~= b@);
    }
    true
}

} // verus!
