//! The free-space bitmap: one bit per block, set while the block is in use.

use vstd::prelude::*;
use crate::layout::{BITMAP_BYTES, NUM_BLOCKS};

verus! {

/// Bit `k` of `b`.
pub open spec fn bit(b: u8, k: u8) -> bool {
    (b >> k) & 1u8 == 1u8
}

/// The bits that the first `BITMAP_BYTES` bytes of `bytes` pack, lowest bit of
/// the first byte first.
pub open spec fn bits_of(bytes: Seq<u8>) -> Seq<bool> {
    Seq::new(NUM_BLOCKS as nat, |i: int| bit(bytes[i / 8], (i % 8) as u8))
}

/// How many bits of `bits` are clear.
pub open spec fn count_clear_in(bits: Seq<bool>) -> nat
    decreases bits.len(),
{
    if bits.len() == 0 {
        0
    } else {
        count_clear_in(bits.drop_last()) + if bits.last() { 0nat } else { 1nat }
    }
}

/// `i` is the lowest clear index of `bits`.
pub open spec fn is_first_clear(bits: Seq<bool>, i: int) -> bool {
    &&& 0 <= i < bits.len()
    &&& !bits[i]
    &&& forall|j: int| 0 <= j < i ==> bits[j]
}

/// The lowest clear index of `bits`, where there is one.
pub open spec fn first_clear(bits: Seq<bool>) -> int {
    choose|i: int| is_first_clear(bits, i)
}

/// A bitmap has one lowest clear index at most.
pub proof fn lemma_first_clear(bits: Seq<bool>, i: int)
    requires
        is_first_clear(bits, i),
    ensures
        first_clear(bits) == i,
{
    let j = first_clear(bits);
    assert(is_first_clear(bits, j));
    if j < i {
        assert(bits[j]);
    }
    if i < j {
        assert(bits[i]);
    }
}

/// Blocks are handed out in ascending order: after the lowest clear index
/// has been set, the next lowest lies above it, and every index between the
/// two is set.
pub proof fn lemma_allocations_ascend(bits: Seq<bool>, i: int, j: int)
    requires
        is_first_clear(bits, i),
        is_first_clear(bits.update(i, true), j),
    ensures
        i < j,
        !bits[j],
        forall|k: int| i < k < j ==> bits[k],
{
    let after = bits.update(i, true);
    if j < i {
        assert(after[j] == bits[j]);
    }
    assert forall|k: int| i < k < j implies bits[k] by {
        assert(after[k]);
    }
}

pub proof fn lemma_bit_or(b: u8, k: u8, j: u8)
    requires
        k < 8,
        j < 8,
    ensures
        bit(b | (1u8 << k), j) == (j == k || bit(b, j)),
{
    assert(((b | (1u8 << k)) >> j) & 1u8 == 1u8 <==> (j == k || (b >> j) & 1u8 == 1u8))
        by (bit_vector)
        requires
            k < 8,
            j < 8,
    ;
}

pub proof fn lemma_bit_and_not(b: u8, k: u8, j: u8)
    requires
        k < 8,
        j < 8,
    ensures
        bit(b & !(1u8 << k), j) == (j != k && bit(b, j)),
{
    assert(((b & !(1u8 << k)) >> j) & 1u8 == 1u8 <==> (j != k && (b >> j) & 1u8 == 1u8))
        by (bit_vector)
        requires
            k < 8,
            j < 8,
    ;
}

/// A clear count never exceeds the length.
pub proof fn lemma_count_bound(bits: Seq<bool>)
    ensures
        count_clear_in(bits) <= bits.len(),
    decreases bits.len(),
{
    if bits.len() > 0 {
        lemma_count_bound(bits.drop_last());
    }
}

/// Changing one bit changes the clear count by at most one, in the direction
/// of the change.
pub proof fn lemma_count_update(bits: Seq<bool>, i: int, v: bool)
    requires
        0 <= i < bits.len(),
    ensures
        count_clear_in(bits.update(i, v)) + (if bits[i] { 0int } else { 1int }) == count_clear_in(
            bits,
        ) + (if v { 0int } else { 1int }),
    decreases bits.len(),
{
    let after = bits.update(i, v);
    if i == bits.len() - 1 {
        assert(after.drop_last() =~= bits.drop_last());
    } else {
        assert(after.drop_last() =~= bits.drop_last().update(i, v));
        lemma_count_update(bits.drop_last(), i, v);
    }
}

/// No bit is clear exactly when the clear count is zero.
pub proof fn lemma_count_zero(bits: Seq<bool>)
    ensures
        count_clear_in(bits) == 0 <==> forall|j: int| 0 <= j < bits.len() ==> bits[j],
    decreases bits.len(),
{
    if bits.len() > 0 {
        let front = bits.drop_last();
        lemma_count_zero(front);
        if count_clear_in(bits) == 0 {
            assert forall|j: int| 0 <= j < bits.len() implies bits[j] by {
                if j < bits.len() - 1 {
                    assert(front[j]);
                }
            }
        }
        if forall|j: int| 0 <= j < bits.len() ==> bits[j] {
            assert forall|j: int| 0 <= j < front.len() implies front[j] by {
                assert(bits[j]);
            }
        }
    }
}

/// A fixed-capacity set of block indices, packed eight to a byte.
#[derive(Clone, Copy, Debug)]
pub struct Bitmap {
    pub bytes: [u8; BITMAP_BYTES],
}

impl View for Bitmap {
    type V = Seq<bool>;

    /// Bit `i` is set iff block `i` is in use.
    open spec fn view(&self) -> Seq<bool> {
        bits_of(self.bytes@)
    }
}

impl Bitmap {
    /// A bitmap with every bit clear.
    pub fn new() -> (b: Bitmap)
        ensures
            b@.len() == NUM_BLOCKS,
            forall|i: int| 0 <= i < NUM_BLOCKS ==> !b@[i],
    {
        let b = Bitmap { bytes: [0u8; BITMAP_BYTES] };
        proof {
            assert forall|i: int| 0 <= i < NUM_BLOCKS implies !b@[i] by {
                let k = (i % 8) as u8;
                assert(b.bytes@[i / 8] == 0u8);
                assert(!bit(0u8, k)) by (bit_vector)
                    requires
                        k < 8,
                ;
            }
        }
        b
    }

    /// The bitmap that the first `BITMAP_BYTES` bytes of `src` pack.
    pub fn from_bytes(src: &[u8]) -> (b: Bitmap)
        requires
            src@.len() >= BITMAP_BYTES,
        ensures
            b@ == bits_of(src@),
            b.bytes@ == src@.subrange(0, BITMAP_BYTES as int),
    {
        let mut b = Bitmap { bytes: [0u8; BITMAP_BYTES] };
        let mut i: usize = 0;
        while i < BITMAP_BYTES
            invariant
                i <= BITMAP_BYTES,
                src@.len() >= BITMAP_BYTES,
                forall|j: int| 0 <= j < i ==> b.bytes@[j] == src@[j],
            decreases BITMAP_BYTES - i,
        {
            b.bytes[i] = src[i];
            i += 1;
        }
        proof {
            assert(b.bytes@ =~= src@.subrange(0, BITMAP_BYTES as int));
            assert(b@ =~= bits_of(src@));
        }
        b
    }

    /// Copies the packed bits to the front of `dst` and leaves the rest of it.
    pub fn to_bytes(&self, dst: &mut [u8])
        requires
            old(dst)@.len() >= BITMAP_BYTES,
        ensures
            final(dst)@.len() == old(dst)@.len(),
            bits_of(final(dst)@) == self@,
            final(dst)@.subrange(0, BITMAP_BYTES as int) == self.bytes@,
            forall|j: int| BITMAP_BYTES <= j < old(dst)@.len() ==> final(dst)@[j] == old(dst)@[j],
    {
        let mut i: usize = 0;
        while i < BITMAP_BYTES
            invariant
                i <= BITMAP_BYTES,
                dst@.len() == old(dst)@.len(),
                dst@.len() >= BITMAP_BYTES,
                forall|j: int| 0 <= j < i ==> dst@[j] == self.bytes@[j],
                forall|j: int| BITMAP_BYTES <= j < dst@.len() ==> dst@[j] == old(dst)@[j],
            decreases BITMAP_BYTES - i,
        {
            dst[i] = self.bytes[i];
            i += 1;
        }
        proof {
            assert(dst@.subrange(0, BITMAP_BYTES as int) =~= self.bytes@);
            assert(bits_of(dst@) =~= self@);
        }
    }

    /// Whether block `i` is marked as in use. An index past the capacity
    /// counts as in use: it can never be handed out.
    pub fn get(&self, i: usize) -> (r: bool)
        ensures
            r == (if i < NUM_BLOCKS { self@[i as int] } else { true }),
    {
        if i >= NUM_BLOCKS {
            return true;
        }
        let k: u8 = (i % 8) as u8;
        (self.bytes[i / 8] >> k) & 1u8 == 1u8
    }

    /// Sets or clears the bit of block `i`; an index past the capacity
    /// changes nothing.
    pub fn set(&mut self, i: usize, value: bool)
        ensures
            final(self)@ == (if i < NUM_BLOCKS { old(self)@.update(i as int, value) } else { old(self)@ }),
    {
        if i >= NUM_BLOCKS {
            return ;
        }
        let k: u8 = (i % 8) as u8;
        let at: usize = i / 8;
        let before: u8 = self.bytes[at];
        let after: u8 = if value { before | (1u8 << k) } else { before & !(1u8 << k) };
        self.bytes[at] = after;
        proof {
            assert forall|j: int| 0 <= j < NUM_BLOCKS implies #[trigger] self@[j] == old(self)@.update(
                i as int,
                value,
            )[j] by {
                let kj = (j % 8) as u8;
                if j / 8 == at as int {
                    lemma_bit_or(before, k, kj);
                    lemma_bit_and_not(before, k, kj);
                }
            }
            assert(self@ =~= old(self)@.update(i as int, value));
        }
    }

    /// The lowest clear index: blocks are handed out lowest first, so the
    /// same bitmap always gives the same block.
    pub fn find_first_clear(&self) -> (r: Option<usize>)
        ensures
            match r {
                Some(i) => is_first_clear(self@, i as int),
                None => forall|j: int| 0 <= j < NUM_BLOCKS ==> self@[j],
            },
    {
        let mut i: usize = 0;
        while i < NUM_BLOCKS
            invariant
                i <= NUM_BLOCKS,
                forall|j: int| 0 <= j < i ==> self@[j],
            decreases NUM_BLOCKS - i,
        {
            if !self.get(i) {
                return Some(i);
            }
            i += 1;
        }
        None
    }

    /// How many blocks are free.
    pub fn count_clear(&self) -> (n: usize)
        ensures
            n == count_clear_in(self@),
            n <= NUM_BLOCKS,
    {
        let mut n: usize = 0;
        let mut i: usize = 0;
        while i < NUM_BLOCKS
            invariant
                i <= NUM_BLOCKS,
                n <= i,
                n == count_clear_in(self@.take(i as int)),
            decreases NUM_BLOCKS - i,
        {
            proof {
                assert(self@.take(i + 1).drop_last() =~= self@.take(i as int));
            }
            if !self.get(i) {
                n += 1;
            }
            i += 1;
        }
        proof {
            assert(self@.take(NUM_BLOCKS as int) =~= self@);
        }
        n
    }
}

} // verus!
