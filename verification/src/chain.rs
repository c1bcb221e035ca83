//! Content of files and directories: a record's blocks read as one run of
//! bytes, and the operations that load, extend, overwrite and release it.

use vstd::prelude::*;
use crate::bit_array::is_first_clear;
use crate::block_device::{disk_shape, BlockDevice};
use crate::block_interface::{GbiState, GlobalBlockInterface, Superblock};
use crate::error::Error;
use crate::inode::{blocks_for, inode_of, EntryKind, Inode, InodeView, ENTRY_SIZE, MAX_FILE_BYTES, MAX_PTRS};
use crate::layout::{copy_bytes, patch, BLOCK_SIZE, NUM_BLOCKS, RESERVED_BLOCKS};

verus! {

/// A pointer of the record at `loc` is sound: it names a block behind the
/// metadata that is marked as in use and is neither the record's own block
/// nor the root.
pub open spec fn ptr_ok(p: u32, loc: int, bits: Seq<bool>, root: int) -> bool {
    &&& RESERVED_BLOCKS <= p < NUM_BLOCKS
    &&& bits[p as int]
    &&& p != loc
    &&& p != root
}

/// The pointers of the record at block `loc` are sound against the bitmap:
/// the record's own block and all of them are in use, and none occurs twice.
pub open spec fn chain_ok(ptrs: Seq<u32>, loc: int, bits: Seq<bool>, root: int) -> bool {
    &&& RESERVED_BLOCKS <= loc < NUM_BLOCKS
    &&& bits[loc]
    &&& ptrs.len() <= MAX_PTRS
    &&& forall|k: int| 0 <= k < ptrs.len() ==> ptr_ok(#[trigger] ptrs[k], loc, bits, root)
    &&& forall|j: int, k: int| 0 <= j < k < ptrs.len() ==> ptrs[j] != ptrs[k]
}

/// The sound record at block `loc`, if there is one.
pub open spec fn node_at(s: GbiState, loc: int) -> Option<InodeView> {
    if s.initialized && RESERVED_BLOCKS <= loc < NUM_BLOCKS {
        match inode_of(s.disk[loc]) {
            Some(v) => if chain_ok(v.ptrs, loc, s.bits, s.superblock.root as int) {
                Some(v)
            } else {
                None
            },
            None => None,
        }
    } else {
        None
    }
}

/// The blocks that `ptrs` names, one after the other, as one run of bytes.
pub open spec fn chain_bytes(disk: Seq<Seq<u8>>, ptrs: Seq<u32>) -> Seq<u8> {
    Seq::new(
        ptrs.len() * BLOCK_SIZE as nat,
        |i: int| disk[ptrs[i / (BLOCK_SIZE as int)] as int][i % (BLOCK_SIZE as int)],
    )
}

/// The content of the record `v`: the first `size` bytes of its blocks.
pub open spec fn content(disk: Seq<Seq<u8>>, v: InodeView) -> Seq<u8> {
    chain_bytes(disk, v.ptrs).take(v.size as int)
}

/// `n` zero bytes.
pub open spec fn zeros(n: nat) -> Seq<u8> {
    Seq::new(n, |i: int| 0u8)
}

/// The pointers name distinct blocks on the device.
pub open spec fn distinct_blocks(ptrs: Seq<u32>) -> bool {
    &&& forall|k: int| 0 <= k < ptrs.len() ==> (#[trigger] ptrs[k]) < NUM_BLOCKS
    &&& forall|j: int, k: int| 0 <= j < k < ptrs.len() ==> ptrs[j] != ptrs[k]
}

/// A patch inside block `k` of a chain is a patch of the chain's bytes.
pub proof fn lemma_chain_patch(disk: Seq<Seq<u8>>, ptrs: Seq<u32>, k: int, within: int, data: Seq<u8>)
    requires
        disk_shape(disk),
        distinct_blocks(ptrs),
        0 <= k < ptrs.len(),
        0 <= within,
        within + data.len() <= BLOCK_SIZE,
    ensures
        chain_bytes(
            disk.update(ptrs[k] as int, patch(disk[ptrs[k] as int], within, data)),
            ptrs,
        ) == patch(chain_bytes(disk, ptrs), k * BLOCK_SIZE + within, data),
{
    let after = disk.update(ptrs[k] as int, patch(disk[ptrs[k] as int], within, data));
    let left = chain_bytes(after, ptrs);
    let right = patch(chain_bytes(disk, ptrs), k * BLOCK_SIZE + within, data);
    assert forall|i: int| 0 <= i < left.len() implies left[i] == right[i] by {
        let b = i / (BLOCK_SIZE as int);
        let o = i % (BLOCK_SIZE as int);
        assert(0 <= b < ptrs.len());
        if b == k {
        } else {
            assert(ptrs[b] != ptrs[k]);
        }
    }
    assert(left =~= right);
}

/// Blocks outside of a chain do not matter to its bytes.
pub proof fn lemma_chain_frame(before: Seq<Seq<u8>>, after: Seq<Seq<u8>>, ptrs: Seq<u32>)
    requires
        forall|k: int| 0 <= k < ptrs.len() ==> after[#[trigger] ptrs[k] as int] == before[ptrs[k] as int],
    ensures
        chain_bytes(after, ptrs) == chain_bytes(before, ptrs),
{
    assert forall|i: int| 0 <= i < ptrs.len() * BLOCK_SIZE implies chain_bytes(after, ptrs)[i]
        == chain_bytes(before, ptrs)[i] by {
        let b = i / (BLOCK_SIZE as int);
        assert(0 <= b < ptrs.len());
        assert(after[ptrs[b] as int] == before[ptrs[b] as int]);
    }
    assert(chain_bytes(after, ptrs) =~= chain_bytes(before, ptrs));
}

/// A chain with one more block has that block's bytes at its end.
pub proof fn lemma_chain_push(disk: Seq<Seq<u8>>, ptrs: Seq<u32>, p: u32)
    requires
        disk_shape(disk),
        p < NUM_BLOCKS,
    ensures
        chain_bytes(disk, ptrs.push(p)) == chain_bytes(disk, ptrs) + disk[p as int],
{
    let left = chain_bytes(disk, ptrs.push(p));
    let right = chain_bytes(disk, ptrs) + disk[p as int];
    assert(left.len() == right.len());
    assert forall|i: int| 0 <= i < left.len() implies left[i] == right[i] by {
        let b = i / (BLOCK_SIZE as int);
        if b < ptrs.len() {
            assert(ptrs.push(p)[b] == ptrs[b]);
        } else {
            assert(b == ptrs.len());
            assert(ptrs.push(p)[b] == p);
        }
    }
    assert(left =~= right);
}

/// Loads the record at block `loc` and holds it against the bitmap. A block
/// off the device or among the metadata is refused before any transfer.
#[verifier::loop_isolation(false)]
#[verifier::rlimit(40)]
pub fn load<D: BlockDevice>(gbi: &mut GlobalBlockInterface<D>, loc: u32) -> (r: Result<Inode, Error>)
    requires
        old(gbi).wf(),
    ensures
        final(gbi).wf(),
        final(gbi)@ == old(gbi)@,
        match r {
            Ok(ino) => ino.wf() && node_at(old(gbi)@, loc as int) == Some(ino@),
            Err(e) => if !old(gbi)@.initialized {
                e == Error::Uninitialized
            } else if !(RESERVED_BLOCKS <= loc < NUM_BLOCKS) {
                e == Error::Corrupted
            } else {
                e is IoError || (e == Error::Corrupted && node_at(old(gbi)@, loc as int) is None)
            },
        },
{
    if !gbi.is_initialized() {
        return Err(Error::Uninitialized);
    }
    proof {
        gbi.lemma_wf();
    }
    if loc < RESERVED_BLOCKS || loc as usize >= NUM_BLOCKS {
        return Err(Error::Corrupted);
    }
    let mut block = [0u8; BLOCK_SIZE];
    match gbi.read_block(loc, &mut block) {
        Err(e) => {
            return Err(e);
        },
        Ok(()) => {},
    }
    let ino = match Inode::decode(&block) {
        None => {
            return Err(Error::Corrupted);
        },
        Some(ino) => ino,
    };
    if !gbi.is_used(loc) {
        return Err(Error::Corrupted);
    }
    let root: u32 = gbi.root();
    let ghost bits = gbi@.bits;
    let count: usize = ino.count as usize;
    let mut k: usize = 0;
    while k < count
        invariant
            k <= count,
            count == ino.count,
            count <= MAX_PTRS,
            gbi.wf(),
            gbi@ == old(gbi)@,
            gbi@.initialized,
            bits == gbi@.bits,
            root == gbi@.superblock.root,
            inode_of(gbi@.disk[loc as int]) == Some(ino@),
            RESERVED_BLOCKS <= loc < NUM_BLOCKS,
            forall|j: int| 0 <= j < k ==> ptr_ok(#[trigger] ino.ptrs@[j], loc as int, bits, root as int),
            forall|i: int, j: int| 0 <= i < j < k ==> ino.ptrs@[i] != ino.ptrs@[j],
        decreases count - k,
    {
        let p: u32 = ino.ptrs[k];
        if p < RESERVED_BLOCKS || p as usize >= NUM_BLOCKS || p == loc || p == root || !gbi.is_used(p) {
            proof {
                assert(ino@.ptrs[k as int] == p);
                assert(!ptr_ok(ino@.ptrs[k as int], loc as int, bits, root as int));
            }
            return Err(Error::Corrupted);
        }
        let mut j: usize = 0;
        while j < k
            invariant
                j <= k,
                k < count,
                count == ino.count,
                count <= MAX_PTRS,
                p == ino.ptrs@[k as int],
                inode_of(gbi@.disk[loc as int]) == Some(ino@),
                gbi@.initialized,
                RESERVED_BLOCKS <= loc < NUM_BLOCKS,
                forall|i: int| 0 <= i < j ==> ino.ptrs@[i] != p,
            decreases k - j,
        {
            if ino.ptrs[j] == p {
                proof {
                    assert(ino@.ptrs[j as int] == ino@.ptrs[k as int]);
                }
                return Err(Error::Corrupted);
            }
            j += 1;
        }
        k += 1;
    }
    proof {
        assert forall|j: int| 0 <= j < ino@.ptrs.len() implies ptr_ok(
            #[trigger] ino@.ptrs[j],
            loc as int,
            bits,
            root as int,
        ) by {
            assert(ino@.ptrs[j] == ino.ptrs@[j]);
        }
    }
    Ok(ino)
}

/// Writes the record `ino` to block `loc`. Nothing else changes, and a
/// failed write changes nothing.
pub fn save<D: BlockDevice>(gbi: &mut GlobalBlockInterface<D>, loc: u32, ino: &Inode) -> (r: Result<
    (),
    Error,
>)
    requires
        old(gbi).wf(),
        old(gbi)@.initialized,
        RESERVED_BLOCKS <= loc < NUM_BLOCKS,
        ino.wf(),
    ensures
        final(gbi).wf(),
        match r {
            Ok(()) => {
                &&& inode_of(final(gbi)@.disk[loc as int]) == Some(ino@)
                &&& final(gbi)@ == (GbiState {
                    disk: old(gbi)@.disk.update(loc as int, final(gbi)@.disk[loc as int]),
                    ..old(gbi)@
                })
            },
            Err(e) => e is IoError && final(gbi)@ == old(gbi)@,
        },
{
    let block = ino.encode();
    proof {
        gbi.lemma_wf();
    }
    let r = gbi.write_block(loc, &block);
    proof {
        gbi.lemma_wf();
        if r is Ok {
            assert(gbi@.disk =~= old(gbi)@.disk.update(loc as int, gbi@.disk[loc as int]));
        }
    }
    r
}

/// Reads `n` bytes of the chain of `ino`, from byte `pos` of the chain on,
/// into the front of `dst`.
#[verifier::rlimit(40)]
pub fn read_chain<D: BlockDevice>(
    gbi: &mut GlobalBlockInterface<D>,
    ino: &Inode,
    pos: usize,
    dst: &mut [u8],
    n: usize,
) -> (r: Result<(), Error>)
    requires
        old(gbi).wf(),
        old(gbi)@.initialized,
        ino.count <= MAX_PTRS,
        distinct_blocks(ino@.ptrs),
        pos + n <= ino.count * BLOCK_SIZE,
        n <= old(dst)@.len(),
    ensures
        final(gbi).wf(),
        final(gbi)@ == old(gbi)@,
        final(dst)@.len() == old(dst)@.len(),
        match r {
            Ok(()) => final(dst)@ == patch(
                old(dst)@,
                0,
                chain_bytes(old(gbi)@.disk, ino@.ptrs).subrange(pos as int, pos + n),
            ),
            Err(e) => e is IoError && exists|p: int|
                read_part(
                    old(dst)@,
                    final(dst)@,
                    chain_bytes(old(gbi)@.disk, ino@.ptrs),
                    pos as nat,
                    p,
                    n as nat,
                ),
        },
{
    let ghost chain = chain_bytes(gbi@.disk, ino@.ptrs);
    let mut done: usize = 0;
    proof {
        gbi.lemma_wf();
        assert(dst@ =~= patch(old(dst)@, 0, chain.subrange(pos as int, pos + 0)));
    }
    while done < n
        invariant
            done <= n,
            gbi.wf(),
            gbi@ == old(gbi)@,
            gbi@.initialized,
            ino.count <= MAX_PTRS,
            distinct_blocks(ino@.ptrs),
            pos + n <= ino.count * BLOCK_SIZE,
            n <= dst@.len(),
            dst@.len() == old(dst)@.len(),
            chain == chain_bytes(gbi@.disk, ino@.ptrs),
            dst@ == patch(old(dst)@, 0, chain.subrange(pos as int, pos + done)),
        decreases n - done,
    {
        let at: usize = pos + done;
        let k: usize = at / BLOCK_SIZE;
        let within: usize = at % BLOCK_SIZE;
        let room: usize = BLOCK_SIZE - within;
        let chunk: usize = if n - done < room {
            n - done
        } else {
            room
        };
        let mut scratch = [0u8; BLOCK_SIZE];
        proof {
            assert(ino@.ptrs[k as int] == ino.ptrs@[k as int]);
        }
        match gbi.read_block(ino.ptrs[k], &mut scratch) {
            Err(e) => {
                proof {
                    assert(chain.subrange(pos as int, pos + done) =~= slice_at(
                        chain,
                        pos as nat,
                        done as nat,
                    ));
                    assert(read_part(old(dst)@, dst@, chain, pos as nat, done as int, n as nat));
                }
                return Err(e);
            },
            Ok(()) => {},
        }
        let ghost before = dst@;
        copy_bytes(dst, done, &scratch, within, chunk);
        proof {
            let want = patch(old(dst)@, 0, chain.subrange(pos as int, pos + done + chunk));
            assert forall|i: int| 0 <= i < dst@.len() implies dst@[i] == want[i] by {
                if done <= i < done + chunk {
                    let c = pos + i;
                    assert(c == k * BLOCK_SIZE + (within + (i - done)));
                    assert(c / (BLOCK_SIZE as int) == k as int);
                    assert(c % (BLOCK_SIZE as int) == within + (i - done));
                    assert(dst@[i] == scratch@.subrange(within as int, within + chunk)[i - done]);
                } else {
                    assert(dst@[i] == before[i]);
                }
            }
            assert(dst@ =~= want);
        }
        done += chunk;
    }
    Ok(())
}

/// Writes `src` over the chain of `ino` from byte `pos` of the chain on. No
/// block outside of the chain changes, whether the write succeeds or not. A
/// write of no bytes makes no transfer and succeeds.
#[verifier::rlimit(40)]
pub fn write_chain<D: BlockDevice>(
    gbi: &mut GlobalBlockInterface<D>,
    ino: &Inode,
    pos: usize,
    src: &[u8],
) -> (r: Result<(), Error>)
    requires
        old(gbi).wf(),
        old(gbi)@.initialized,
        ino.count <= MAX_PTRS,
        distinct_blocks(ino@.ptrs),
        forall|k: int| 0 <= k < ino@.ptrs.len() ==> (#[trigger] ino@.ptrs[k]) >= RESERVED_BLOCKS,
        pos + src@.len() <= ino.count * BLOCK_SIZE,
    ensures
        final(gbi).wf(),
        final(gbi)@ == (GbiState { disk: final(gbi)@.disk, ..old(gbi)@ }),
        forall|b: int|
            0 <= b < NUM_BLOCKS && !ino@.ptrs.contains(b as u32) ==> final(gbi)@.disk[b] == old(
                gbi,
            )@.disk[b],
        match r {
            Ok(()) => chain_bytes(final(gbi)@.disk, ino@.ptrs) == patch(
                chain_bytes(old(gbi)@.disk, ino@.ptrs),
                pos as int,
                src@,
            ),
            Err(e) => e is IoError && src@.len() > 0,
        },
{
    let ghost chain = chain_bytes(gbi@.disk, ino@.ptrs);
    let n: usize = src.len();
    let mut done: usize = 0;
    proof {
        gbi.lemma_wf();
        assert(chain =~= patch(chain, pos as int, src@.take(0)));
    }
    while done < n
        invariant
            done <= n,
            n == src@.len(),
            gbi.wf(),
            gbi@ == (GbiState { disk: gbi@.disk, ..old(gbi)@ }),
            gbi@.initialized,
            ino.count <= MAX_PTRS,
            distinct_blocks(ino@.ptrs),
            forall|k: int| 0 <= k < ino@.ptrs.len() ==> (#[trigger] ino@.ptrs[k]) >= RESERVED_BLOCKS,
            pos + n <= ino.count * BLOCK_SIZE,
            chain == chain_bytes(old(gbi)@.disk, ino@.ptrs),
            chain_bytes(gbi@.disk, ino@.ptrs) == patch(chain, pos as int, src@.take(done as int)),
            forall|b: int|
                0 <= b < NUM_BLOCKS && !ino@.ptrs.contains(b as u32) ==> gbi@.disk[b] == old(
                    gbi,
                )@.disk[b],
        decreases n - done,
    {
        let at: usize = pos + done;
        let k: usize = at / BLOCK_SIZE;
        let within: usize = at % BLOCK_SIZE;
        let room: usize = BLOCK_SIZE - within;
        let chunk: usize = if n - done < room {
            n - done
        } else {
            room
        };
        let ghost cur = gbi@.disk;
        proof {
            gbi.lemma_wf();
            assert(ino@.ptrs[k as int] == ino.ptrs@[k as int]);
            assert(ino@.ptrs.contains(ino@.ptrs[k as int]));
        }
        let piece = &src[done..done + chunk];
        match gbi.write_at(ino.ptrs[k], within, piece) {
            Err(e) => {
                return Err(e);
            },
            Ok(()) => {},
        }
        proof {
            lemma_chain_patch(cur, ino@.ptrs, k as int, within as int, piece@);
            let now = chain_bytes(gbi@.disk, ino@.ptrs);
            let want = patch(chain, pos as int, src@.take(done + chunk));
            assert(now == patch(
                patch(chain, pos as int, src@.take(done as int)),
                k * BLOCK_SIZE + within,
                piece@,
            ));
            assert(now =~= want);
        }
        done += chunk;
    }
    proof {
        assert(src@.take(n as int) =~= src@);
    }
    Ok(())
}

/// `bits` with the blocks of `added` set.
pub open spec fn bits_after(bits: Seq<bool>, added: Seq<u32>) -> Seq<bool> {
    Seq::new(bits.len(), |i: int| bits[i] || added.contains(i as u32))
}

/// `bits` with the blocks of `removed` cleared.
pub open spec fn bits_without(bits: Seq<bool>, removed: Seq<u32>) -> Seq<bool> {
    Seq::new(bits.len(), |i: int| bits[i] && !removed.contains(i as u32))
}

/// Each block of `added` was the lowest free one when its turn came.
pub open spec fn lowest_first(bits: Seq<bool>, added: Seq<u32>) -> bool {
    forall|k: int|
        0 <= k < added.len() ==> is_first_clear(bits_after(bits, added.take(k)), #[trigger] added[k] as int)
}

/// What `grow` leaves when it succeeds: the chain `ptrs0` has become `ptrs1` by
/// blocks taken lowest first, as many as were wanted or as were free; the
/// new blocks hold zeroes, and no other block has changed.
#[verifier::opaque]
pub open spec fn grow_post(
    pre: GbiState,
    post: GbiState,
    ptrs0: Seq<u32>,
    ptrs1: Seq<u32>,
    loc: int,
    want: int,
) -> bool {
    let added = ptrs1.skip(ptrs0.len() as int);
    &&& ptrs1.len() == if want <= ptrs0.len() + pre.free() {
        want
    } else {
        (ptrs0.len() + pre.free()) as int
    }
    &&& ptrs1.len() >= ptrs0.len()
    &&& ptrs1.take(ptrs0.len() as int) == ptrs0
    &&& lowest_first(pre.bits, added)
    &&& post == (GbiState {
        disk: post.disk,
        bits: bits_after(pre.bits, added),
        superblock: Superblock {
            free_blocks: (pre.superblock.free_blocks - added.len()) as u32,
            ..pre.superblock
        },
        dirty: pre.dirty || added.len() > 0,
        ..pre
    })
    &&& chain_ok(ptrs1, loc, post.bits, pre.superblock.root as int)
    &&& chain_bytes(post.disk, ptrs1) == chain_bytes(pre.disk, ptrs0) + zeros(added.len() * BLOCK_SIZE as nat)
    &&& forall|b: int| 0 <= b < NUM_BLOCKS && !added.contains(b as u32) ==> post.disk[b] == pre.disk[b]
}

/// Pushing `b` onto `s` adds `b` to what `s` contains, and nothing else.
pub proof fn lemma_contains_push(s: Seq<u32>, b: u32, x: u32)
    ensures
        s.push(b).contains(x) <==> (s.contains(x) || x == b),
{
    if s.contains(x) {
        let i = choose|i: int| 0 <= i < s.len() && s[i] == x;
        assert(s.push(b)[i] == x);
    }
    if x == b {
        assert(s.push(b)[s.len() as int] == x);
    }
    if s.push(b).contains(x) {
        let i = choose|i: int| 0 <= i < s.push(b).len() && s.push(b)[i] == x;
        if i < s.len() {
            assert(s[i] == x);
        }
    }
}

/// One step of `grow`: the lowest free block `b`, zeroed, joins the chain.
#[verifier::rlimit(40)]
proof fn lemma_grow_step(
    pre: GbiState,
    cur: GbiState,
    next_disk: Seq<Seq<u8>>,
    ptrs0: Seq<u32>,
    ptrs: Seq<u32>,
    b: u32,
    loc: int,
)
    requires
        disk_shape(cur.disk),
        cur.bits.len() == NUM_BLOCKS,
        pre.bits.len() == NUM_BLOCKS,
        cur.bits[0],
        cur.bits[1],
        cur.bits[pre.superblock.root as int],
        ptrs0.len() <= ptrs.len() < MAX_PTRS,
        ptrs.take(ptrs0.len() as int) == ptrs0,
        lowest_first(pre.bits, ptrs.skip(ptrs0.len() as int)),
        cur.bits == bits_after(pre.bits, ptrs.skip(ptrs0.len() as int)),
        chain_ok(ptrs, loc, cur.bits, pre.superblock.root as int),
        chain_bytes(cur.disk, ptrs) == chain_bytes(pre.disk, ptrs0) + zeros(
            ((ptrs.len() - ptrs0.len()) * BLOCK_SIZE) as nat,
        ),
        forall|x: int| 0 <= x < NUM_BLOCKS && pre.bits[x] ==> cur.disk[x] == pre.disk[x],
        forall|x: int|
            0 <= x < NUM_BLOCKS && !ptrs.skip(ptrs0.len() as int).contains(x as u32) ==> cur.disk[x]
                == pre.disk[x],
        is_first_clear(cur.bits, b as int),
        next_disk == cur.disk.update(b as int, zeros(BLOCK_SIZE as nat)),
    ensures
        ptrs.push(b).take(ptrs0.len() as int) == ptrs0,
        ptrs.push(b).skip(ptrs0.len() as int) == ptrs.skip(ptrs0.len() as int).push(b),
        lowest_first(pre.bits, ptrs.push(b).skip(ptrs0.len() as int)),
        cur.bits.update(b as int, true) == bits_after(pre.bits, ptrs.push(b).skip(ptrs0.len() as int)),
        chain_ok(ptrs.push(b), loc, cur.bits.update(b as int, true), pre.superblock.root as int),
        chain_bytes(next_disk, ptrs.push(b)) == chain_bytes(pre.disk, ptrs0) + zeros(
            ((ptrs.len() + 1 - ptrs0.len()) * BLOCK_SIZE) as nat,
        ),
        forall|x: int| 0 <= x < NUM_BLOCKS && pre.bits[x] ==> next_disk[x] == pre.disk[x],
        forall|x: int|
            0 <= x < NUM_BLOCKS && !ptrs.push(b).skip(ptrs0.len() as int).contains(x as u32)
                ==> next_disk[x] == pre.disk[x],
{
    let root = pre.superblock.root as int;
    let added = ptrs.skip(ptrs0.len() as int);
    let now = ptrs.push(b);
    let grown = now.skip(ptrs0.len() as int);
    let bits2 = cur.bits.update(b as int, true);
    assert(grown =~= added.push(b));
    assert(now.take(ptrs0.len() as int) =~= ptrs0);
    assert(!ptrs.contains(b)) by {
        if ptrs.contains(b) {
            let i = choose|i: int| 0 <= i < ptrs.len() && ptrs[i] == b;
            assert(ptr_ok(ptrs[i], loc, cur.bits, root));
        }
    }
    assert forall|k: int| 0 <= k < grown.len() implies is_first_clear(
        bits_after(pre.bits, grown.take(k)),
        #[trigger] grown[k] as int,
    ) by {
        if k < added.len() {
            assert(grown.take(k) =~= added.take(k));
            assert(grown[k] == added[k]);
        } else {
            assert(grown.take(k) =~= added);
        }
    }
    assert forall|i: int| 0 <= i < NUM_BLOCKS implies bits2[i] == bits_after(pre.bits, grown)[i] by {
        lemma_contains_push(added, b, i as u32);
    }
    assert(bits2 =~= bits_after(pre.bits, grown));
    assert forall|k: int| 0 <= k < now.len() implies ptr_ok(#[trigger] now[k], loc, bits2, root) by {
        if k < ptrs.len() {
            assert(ptr_ok(ptrs[k], loc, cur.bits, root));
        }
    }
    assert forall|j: int, k: int| 0 <= j < k < now.len() implies now[j] != now[k] by {
        if k == ptrs.len() {
            assert(ptrs.contains(ptrs[j]));
        }
    }
    assert forall|k: int| 0 <= k < ptrs.len() implies next_disk[#[trigger] ptrs[k] as int]
        == cur.disk[ptrs[k] as int] by {
        assert(ptrs.contains(ptrs[k]));
    }
    lemma_chain_frame(cur.disk, next_disk, ptrs);
    lemma_chain_push(next_disk, ptrs, b);
    assert(chain_bytes(next_disk, now) =~= chain_bytes(pre.disk, ptrs0) + zeros(
        ((ptrs.len() + 1 - ptrs0.len()) * BLOCK_SIZE) as nat,
    ));
    assert forall|x: int| 0 <= x < NUM_BLOCKS && pre.bits[x] implies next_disk[x] == pre.disk[x] by {
        assert(cur.bits[x]);
    }
    assert forall|x: int| 0 <= x < NUM_BLOCKS && !grown.contains(x as u32) implies next_disk[x]
        == pre.disk[x] by {
        lemma_contains_push(added, b, x as u32);
    }
}

/// Extends the chain of `ino` to `want` blocks, or by as many as are free.
/// Each new block is the lowest free one and is filled with zeroes. When the
/// transport fails, the allocation is undone and `ino` is as it was. Where
/// no block is wanted or none is free, no transfer is made.
#[verifier::loop_isolation(false)]
#[verifier::rlimit(40)]
pub fn grow<D: BlockDevice>(
    gbi: &mut GlobalBlockInterface<D>,
    ino: &mut Inode,
    loc: u32,
    want: u32,
) -> (r: Result<(), Error>)
    requires
        old(gbi).wf(),
        old(gbi)@.initialized,
        chain_ok(old(ino)@.ptrs, loc as int, old(gbi)@.bits, old(gbi)@.superblock.root as int),
        old(ino).count <= want <= MAX_PTRS,
    ensures
        final(gbi).wf(),
        final(gbi)@.initialized,
        final(ino).kind == old(ino).kind,
        final(ino).size == old(ino).size,
        final(ino).count <= MAX_PTRS,
        match r {
            Ok(()) => grow_post(
                old(gbi)@,
                final(gbi)@,
                old(ino)@.ptrs,
                final(ino)@.ptrs,
                loc as int,
                want as int,
            ),
            Err(e) => {
                &&& e is IoError
                &&& old(ino).count < want
                &&& old(gbi)@.superblock.free_blocks > 0
                &&& *final(ino) == *old(ino)
                &&& final(gbi)@.bits == old(gbi)@.bits
                &&& final(gbi)@.superblock == old(gbi)@.superblock
                &&& forall|b: int|
                    0 <= b < NUM_BLOCKS && old(gbi)@.bits[b] ==> final(gbi)@.disk[b] == old(gbi)@.disk[b]
            },
        },
{
    proof {
        gbi.lemma_wf();
    }
    let ghost pre = gbi@;
    let ghost ptrs0 = ino@.ptrs;
    let ghost root = pre.superblock.root as int;
    let mark = gbi.mark();
    let saved = *ino;
    let zero_block = [0u8; BLOCK_SIZE];
    let mut full = false;
    proof {
        assert(ino@.ptrs.skip(ptrs0.len() as int) =~= Seq::<u32>::empty());
        assert(gbi@.bits =~= bits_after(pre.bits, Seq::<u32>::empty()));
        assert(ino@.ptrs.take(ptrs0.len() as int) =~= ptrs0);
        assert(chain_bytes(pre.disk, ptrs0) + zeros(0) =~= chain_bytes(pre.disk, ptrs0));
        assert(zero_block@ =~= zeros(BLOCK_SIZE as nat));
    }
    while ino.count < want && !full
        invariant
            gbi.wf(),
            gbi@.wf(),
            gbi@.initialized,
            ino.kind == old(ino).kind,
            ino.size == old(ino).size,
            ptrs0.len() <= ino.count <= want,
            ino@.ptrs.take(ptrs0.len() as int) == ptrs0,
            lowest_first(pre.bits, ino@.ptrs.skip(ptrs0.len() as int)),
            gbi@.bits == bits_after(pre.bits, ino@.ptrs.skip(ptrs0.len() as int)),
            gbi@.superblock.free_blocks + (ino.count - ptrs0.len()) == pre.superblock.free_blocks,
            gbi@.superblock.root == pre.superblock.root,
            gbi@.superblock.total_blocks == pre.superblock.total_blocks,
            gbi@.dirty == (pre.dirty || ino.count > ptrs0.len()),
            chain_ok(ino@.ptrs, loc as int, gbi@.bits, root),
            chain_bytes(gbi@.disk, ino@.ptrs) == chain_bytes(pre.disk, ptrs0) + zeros(
                ((ino.count - ptrs0.len()) * BLOCK_SIZE) as nat,
            ),
            forall|b: int| 0 <= b < NUM_BLOCKS && pre.bits[b] ==> gbi@.disk[b] == pre.disk[b],
            forall|b: int|
                0 <= b < NUM_BLOCKS && !ino@.ptrs.skip(ptrs0.len() as int).contains(b as u32)
                    ==> gbi@.disk[b] == pre.disk[b],
            full ==> gbi@.superblock.free_blocks == 0,
        decreases want - ino.count + (if full { 0int } else { 1int }),
    {
        let ghost cur = gbi@;
        let ghost ptrs = ino@.ptrs;
        match gbi.allocate_block() {
            Err(_) => {
                full = true;
            },
            Ok(b) => {
                match gbi.write_block(b, &zero_block) {
                    Err(e) => {
                        gbi.rewind(mark);
                        *ino = saved;
                        return Err(e);
                    },
                    Ok(()) => {},
                }
                let at: usize = ino.count as usize;
                ino.ptrs[at] = b;
                ino.count = ino.count + 1;
                proof {
                    gbi.lemma_wf();
                    assert(ino@.ptrs =~= ptrs.push(b));
                    lemma_grow_step(pre, cur, gbi@.disk, ptrs0, ptrs, b, loc as int);
                }
            },
        }
    }
    proof {
        reveal(grow_post);
        let ptrs1 = ino@.ptrs;
        let added = ptrs1.skip(ptrs0.len() as int);
        assert(added.len() == ino.count - ptrs0.len());
    }
    Ok(())
}

/// Frees the blocks of the chain of `ino` from the `from`-th on.
#[verifier::loop_isolation(false)]
#[verifier::rlimit(40)]
pub fn release<D: BlockDevice>(gbi: &mut GlobalBlockInterface<D>, ino: &Inode, loc: u32, from: u32)
    requires
        old(gbi).wf(),
        old(gbi)@.initialized,
        chain_ok(ino@.ptrs, loc as int, old(gbi)@.bits, old(gbi)@.superblock.root as int),
        from <= ino.count <= MAX_PTRS,
    ensures
        final(gbi).wf(),
        final(gbi)@ == (GbiState {
            bits: bits_without(old(gbi)@.bits, ino@.ptrs.skip(from as int)),
            superblock: Superblock {
                free_blocks: (old(gbi)@.superblock.free_blocks + (ino.count - from)) as u32,
                ..old(gbi)@.superblock
            },
            dirty: old(gbi)@.dirty || ino.count > from,
            ..old(gbi)@
        }),
{
    let ghost pre = gbi@;
    let ghost ptrs = ino@.ptrs;
    let ghost root = pre.superblock.root as int;
    proof {
        gbi.lemma_wf();
        assert(ptrs.subrange(from as int, from as int) =~= Seq::<u32>::empty());
        assert(pre.bits =~= bits_without(pre.bits, Seq::<u32>::empty()));
    }
    let mut k: u32 = from;
    while k < ino.count
        invariant
            from <= k <= ino.count,
            gbi.wf(),
            gbi@ == (GbiState {
                bits: bits_without(pre.bits, ptrs.subrange(from as int, k as int)),
                superblock: Superblock {
                    free_blocks: (pre.superblock.free_blocks + (k - from)) as u32,
                    ..pre.superblock
                },
                dirty: pre.dirty || k > from,
                ..pre
            }),
            pre.superblock.free_blocks + (k - from) <= NUM_BLOCKS,
        decreases ino.count - k,
    {
        let ghost cur = gbi@;
        let ghost gone = ptrs.subrange(from as int, k as int);
        let p: u32 = ino.ptrs[k as usize];
        proof {
            gbi.lemma_wf();
            assert(p == ptrs[k as int]);
            assert(ptr_ok(ptrs[k as int], loc as int, pre.bits, root));
            assert(!gone.contains(p)) by {
                if gone.contains(p) {
                    let i = choose|i: int| 0 <= i < gone.len() && gone[i] == p;
                    assert(ptrs[from + i] == ptrs[k as int]);
                }
            }
            assert(cur.bits[p as int]);
        }
        gbi.free_block(p);
        proof {
            gbi.lemma_wf();
            let gone2 = ptrs.subrange(from as int, k + 1);
            assert(gone2 =~= gone.push(p));
            assert forall|i: int| 0 <= i < NUM_BLOCKS implies gbi@.bits[i] == bits_without(
                pre.bits,
                gone2,
            )[i] by {
                lemma_contains_push(gone, p, i as u32);
            }
            assert(gbi@.bits =~= bits_without(pre.bits, gone2));
        }
        k = k + 1;
    }
    proof {
        assert(ptrs.subrange(from as int, ino.count as int) =~= ptrs.skip(from as int));
    }
}

/// The content `before` after `data` has been written at `offset`: the
/// written bytes, around them what was there, and zeroes where the write
/// started behind the old end.
pub open spec fn written(before: Seq<u8>, offset: nat, data: Seq<u8>) -> Seq<u8> {
    Seq::new(
        if before.len() >= offset + data.len() {
            before.len()
        } else {
            offset + data.len()
        },
        |i: int|
            if offset <= i < offset + data.len() {
                data[i - offset]
            } else if i < before.len() {
                before[i]
            } else {
                0u8
            },
    )
}

/// How far a write gets.
pub struct Plan {
    /// Blocks of the chain afterwards.
    pub count: nat,
    /// Length of the content afterwards.
    pub size: nat,
    /// Whether all of the data is written.
    pub complete: bool,
}

/// How far a write of `len` bytes at `offset` gets on content of `size` bytes
/// in `count` blocks when `free` blocks are free. The chain grows to what
/// the write needs, but not beyond what a record can hold nor what is free.
/// If that is enough, the content ends where it did or where the write ends,
/// whichever is later; if not, it ends where the last block ends.
#[verifier::opaque]
pub open spec fn write_plan(size: nat, count: nat, free: nat, offset: nat, len: nat) -> Plan {
    let end = offset + len;
    let need = blocks_for(end as int);
    let capped = if need <= MAX_PTRS {
        need
    } else {
        MAX_PTRS as int
    };
    let want = if capped >= count {
        capped
    } else {
        count as int
    };
    let got = if want <= count + free {
        want
    } else {
        (count + free) as int
    };
    let limit = got * BLOCK_SIZE;
    if len == 0 {
        Plan { count, size, complete: true }
    } else if end <= limit {
        Plan {
            count: got as nat,
            size: if size >= end {
                size
            } else {
                end
            },
            complete: true,
        }
    } else {
        Plan { count: got as nat, size: limit as nat, complete: false }
    }
}

/// What an operation on the record at `loc` leaves when the transport
/// fails: the record, the bitmap and the free count are as before, and no
/// block has changed that was in use and not part of the record's chain.
pub open spec fn io_failed(pre: GbiState, post: GbiState, v0: InodeView, v1: InodeView) -> bool {
    &&& v1 == v0
    &&& post.bits == pre.bits
    &&& post.superblock == pre.superblock
    &&& post.initialized
    &&& forall|b: int|
        0 <= b < NUM_BLOCKS && pre.bits[b] && !v0.ptrs.contains(b as u32) ==> post.disk[b]
            == pre.disk[b]
}

/// What a write leaves of the record at `loc` besides its content: the
/// record has the planned length and blocks, the new blocks were taken
/// lowest first and are marked as in use, and no block outside of the record
/// has changed.
pub open spec fn settled(
    pre: GbiState,
    post: GbiState,
    loc: int,
    v0: InodeView,
    v1: InodeView,
    plan: Plan,
) -> bool {
    let added = v1.ptrs.skip(v0.ptrs.len() as int);
    &&& v1.kind == v0.kind
    &&& v1.size == plan.size
    &&& v1.ptrs.len() == plan.count
    &&& v1.ptrs.take(v0.ptrs.len() as int) == v0.ptrs
    &&& node_at(post, loc) == Some(v1)
    &&& lowest_first(pre.bits, added)
    &&& post.bits == bits_after(pre.bits, added)
    &&& post.superblock == (Superblock {
        free_blocks: (pre.superblock.free_blocks - added.len()) as u32,
        ..pre.superblock
    })
    &&& post.initialized
    &&& forall|b: int|
        0 <= b < NUM_BLOCKS && b != loc && !v1.ptrs.contains(b as u32) ==> post.disk[b]
            == pre.disk[b]
}

/// What `put_bytes` leaves. Unless the transport fails, the write gets as
/// far as the plan says, and the content is the written content cut at the
/// planned length. A write of no bytes makes no transfer, so the transport
/// cannot fail it.
#[verifier::opaque]
pub open spec fn put_post(
    pre: GbiState,
    post: GbiState,
    loc: int,
    v0: InodeView,
    v1: InodeView,
    offset: nat,
    data: Seq<u8>,
    r: Result<usize, Error>,
) -> bool {
    let plan = write_plan(v0.size, v0.ptrs.len(), pre.free(), offset, data.len());
    if r matches Err(Error::IoError(_)) {
        data.len() > 0 && io_failed(pre, post, v0, v1)
    } else {
        &&& r == if plan.complete {
            Ok::<usize, Error>(data.len() as usize)
        } else {
            Err::<usize, Error>(Error::NoSpace)
        }
        &&& settled(pre, post, loc, v0, v1, plan)
        &&& content(post.disk, v1) == written(content(pre.disk, v0), offset, data).take(
            plan.size as int,
        )
    }
}

/// The bytes of a chain after a write: the old chain, zeroes behind it, a
/// zeroed gap and the data give the written content.
proof fn lemma_put_content(
    c0: Seq<u8>,
    size: nat,
    limit0: nat,
    limit: nat,
    offset: nat,
    data: Seq<u8>,
    gap: nat,
    m: nat,
    new_size: nat,
)
    requires
        c0.len() == limit0,
        size <= limit0 <= limit,
        data.len() > 0,
        gap == gap_of(size as int, limit0 as int, offset as int),
        m == fit_of(limit as int, offset as int, data.len() as int),
        new_size == size_of(size as int, limit as int, offset as int, data.len() as int),
    ensures
        patch(
            patch(c0 + zeros((limit - limit0) as nat), size as int, zeros(gap)),
            offset as int,
            data.take(m as int),
        ).take(new_size as int) == written(c0.take(size as int), offset, data).take(new_size as int),
{
    let left = patch(
        patch(c0 + zeros((limit - limit0) as nat), size as int, zeros(gap)),
        offset as int,
        data.take(m as int),
    ).take(new_size as int);
    let right = written(c0.take(size as int), offset, data).take(new_size as int);
    assert(left.len() == right.len());
    assert forall|i: int| 0 <= i < left.len() implies left[i] == right[i] by {
        if offset <= i < offset + m {
        } else if size <= i < size + gap {
        } else if i < limit0 {
        } else {
        }
    }
    assert(left =~= right);
}

/// What a sound record gives: its pointers name distinct blocks behind the
/// metadata, all in use.
pub proof fn lemma_node_blocks(s: GbiState, loc: int, v: InodeView)
    requires
        node_at(s, loc) == Some(v),
    ensures
        s.initialized,
        RESERVED_BLOCKS <= loc < NUM_BLOCKS,
        inode_of(s.disk[loc]) == Some(v),
        chain_ok(v.ptrs, loc, s.bits, s.superblock.root as int),
        distinct_blocks(v.ptrs),
        v.ptrs.len() == blocks_for(v.size as int),
        v.ptrs.len() <= MAX_PTRS,
        v.size <= MAX_FILE_BYTES,
        v.kind == EntryKind::Directory ==> v.size % (ENTRY_SIZE as nat) == 0,
        forall|k: int| 0 <= k < v.ptrs.len() ==> (#[trigger] v.ptrs[k]) >= RESERVED_BLOCKS,
        !v.ptrs.contains(loc as u32),
{
    let root = s.superblock.root as int;
    assert forall|k: int| 0 <= k < v.ptrs.len() implies (#[trigger] v.ptrs[k]) >= RESERVED_BLOCKS
        && v.ptrs[k] < NUM_BLOCKS by {
        assert(ptr_ok(v.ptrs[k], loc, s.bits, root));
    }
    if v.ptrs.contains(loc as u32) {
        let i = choose|i: int| 0 <= i < v.ptrs.len() && v.ptrs[i] == loc as u32;
        assert(ptr_ok(v.ptrs[i], loc, s.bits, root));
    }
}

/// Zeroes the gap of `gap` bytes behind byte `size0` of the chain, then
/// writes the first `m` bytes of `src` at byte `offset` of the chain.
fn fill<D: BlockDevice>(
    gbi: &mut GlobalBlockInterface<D>,
    ino: &Inode,
    size0: usize,
    gap: usize,
    offset: usize,
    src: &[u8],
    m: usize,
) -> (r: Result<(), Error>)
    requires
        old(gbi).wf(),
        old(gbi)@.initialized,
        ino.count <= MAX_PTRS,
        distinct_blocks(ino@.ptrs),
        forall|k: int| 0 <= k < ino@.ptrs.len() ==> (#[trigger] ino@.ptrs[k]) >= RESERVED_BLOCKS,
        gap < BLOCK_SIZE,
        size0 + gap <= ino.count * BLOCK_SIZE,
        m <= src@.len(),
        m > 0 ==> offset + m <= ino.count * BLOCK_SIZE,
    ensures
        final(gbi).wf(),
        final(gbi)@ == (GbiState { disk: final(gbi)@.disk, ..old(gbi)@ }),
        forall|b: int|
            0 <= b < NUM_BLOCKS && !ino@.ptrs.contains(b as u32) ==> final(gbi)@.disk[b] == old(
                gbi,
            )@.disk[b],
        match r {
            Ok(()) => chain_bytes(final(gbi)@.disk, ino@.ptrs) == patch(
                patch(chain_bytes(old(gbi)@.disk, ino@.ptrs), size0 as int, zeros(gap as nat)),
                offset as int,
                src@.take(m as int),
            ),
            Err(e) => e is IoError && (gap > 0 || m > 0),
        },
{
    let ghost c1 = chain_bytes(gbi@.disk, ino@.ptrs);
    if gap > 0 {
        let zero_block = [0u8; BLOCK_SIZE];
        let piece = &zero_block[0..gap];
        if let Err(e) = write_chain(gbi, ino, size0, piece) {
            return Err(e);
        }
        proof {
            assert(piece@ =~= zeros(gap as nat));
        }
    }
    let ghost c2 = chain_bytes(gbi@.disk, ino@.ptrs);
    proof {
        assert(c2 =~= patch(c1, size0 as int, zeros(gap as nat)));
    }
    if m > 0 {
        let piece = &src[0..m];
        if let Err(e) = write_chain(gbi, ino, offset, piece) {
            return Err(e);
        }
    }
    proof {
        let c3 = chain_bytes(gbi@.disk, ino@.ptrs);
        assert(c3 =~= patch(c2, offset as int, src@.take(m as int)));
    }
    Ok(())
}

/// The content after the steps of a write is the written content.
proof fn lemma_put_bytes_content(
    d0: Seq<Seq<u8>>,
    d1: Seq<Seq<u8>>,
    d3: Seq<Seq<u8>>,
    d4: Seq<Seq<u8>>,
    v0: InodeView,
    v1: InodeView,
    offset: nat,
    data: Seq<u8>,
    gap: nat,
    m: nat,
)
    requires
        v0.size <= v0.ptrs.len() * BLOCK_SIZE,
        v0.ptrs.len() <= v1.ptrs.len(),
        v1.size <= v1.ptrs.len() * BLOCK_SIZE,
        data.len() > 0,
        gap == gap_of(v0.size as int, v0.ptrs.len() * BLOCK_SIZE, offset as int),
        m == fit_of(v1.ptrs.len() * BLOCK_SIZE, offset as int, data.len() as int),
        v1.size == size_of(
            v0.size as int,
            v1.ptrs.len() * BLOCK_SIZE,
            offset as int,
            data.len() as int,
        ),
        chain_bytes(d1, v1.ptrs) == chain_bytes(d0, v0.ptrs) + zeros(
            ((v1.ptrs.len() - v0.ptrs.len()) * BLOCK_SIZE) as nat,
        ),
        chain_bytes(d3, v1.ptrs) == patch(
            patch(chain_bytes(d1, v1.ptrs), v0.size as int, zeros(gap)),
            offset as int,
            data.take(m as int),
        ),
        chain_bytes(d4, v1.ptrs) == chain_bytes(d3, v1.ptrs),
    ensures
        content(d4, v1) == written(content(d0, v0), offset, data).take(v1.size as int),
{
    let c0 = chain_bytes(d0, v0.ptrs);
    lemma_put_content(
        c0,
        v0.size,
        (v0.ptrs.len() * BLOCK_SIZE) as nat,
        (v1.ptrs.len() * BLOCK_SIZE) as nat,
        offset,
        data,
        gap,
        m,
        v1.size,
    );
}

/// The bytes of the gap between the old end of the content and the start of
/// a write that lie in the old last block.
pub open spec fn gap_of(size0: int, limit0: int, offset: int) -> int {
    if offset > size0 && size0 < limit0 {
        (if offset <= limit0 {
            offset
        } else {
            limit0
        }) - size0
    } else {
        0
    }
}

/// The bytes of a write that fit in front of `limit`.
pub open spec fn fit_of(limit: int, offset: int, len: int) -> int {
    if offset < limit {
        if len <= limit - offset {
            len
        } else {
            limit - offset
        }
    } else {
        0
    }
}

/// The length of the content after a write that may go up to `limit`.
pub open spec fn size_of(size0: int, limit: int, offset: int, len: int) -> int {
    if offset + len <= limit {
        if size0 >= offset + len {
            size0
        } else {
            offset + len
        }
    } else {
        limit
    }
}

/// The record written back at the end of a write is sound, and no block
/// outside of it has changed.
#[verifier::rlimit(40)]
proof fn lemma_put_node(
    pre: GbiState,
    mid: GbiState,
    d3: Seq<Seq<u8>>,
    post: GbiState,
    loc: int,
    v0: InodeView,
    v1: InodeView,
    want: int,
)
    requires
        pre.wf(),
        node_at(pre, loc) == Some(v0),
        grow_post(pre, mid, v0.ptrs, v1.ptrs, loc, want),
        forall|b: int|
            0 <= b < NUM_BLOCKS && !v1.ptrs.contains(b as u32) ==> d3[b] == mid.disk[b],
        d3.len() == NUM_BLOCKS,
        inode_of(post.disk[loc]) == Some(v1),
        post == (GbiState { disk: d3.update(loc, post.disk[loc]), ..mid }),
    ensures
        node_at(post, loc) == Some(v1),
        chain_bytes(post.disk, v1.ptrs) == chain_bytes(d3, v1.ptrs),
        forall|b: int|
            0 <= b < NUM_BLOCKS && b != loc && !v1.ptrs.contains(b as u32) ==> post.disk[b]
                == pre.disk[b],
{
    reveal(grow_post);
    let root = pre.superblock.root as int;
    let ptrs1 = v1.ptrs;
    lemma_node_blocks(pre, loc, v0);
    assert forall|k: int| 0 <= k < ptrs1.len() implies post.disk[#[trigger] ptrs1[k] as int] == d3[ptrs1[k] as int] by {
        assert(ptr_ok(ptrs1[k], loc, mid.bits, root));
    }
    lemma_chain_frame(d3, post.disk, ptrs1);
    assert forall|b: int|
        0 <= b < NUM_BLOCKS && b != loc && !v1.ptrs.contains(b as u32) implies post.disk[b]
            == pre.disk[b] by {
        lemma_skip_contains(ptrs1, v0.ptrs.len() as int, b as u32);
    }
}

/// How many blocks a write wants the chain to have.
pub open spec fn want_of(count0: int, offset: int, len: int) -> int {
    let need = blocks_for(offset + len);
    if need <= MAX_PTRS {
        if need >= count0 {
            need
        } else {
            count0
        }
    } else {
        MAX_PTRS as int
    }
}

/// The plan of a write, from the sizes that its steps work with.
proof fn lemma_plan(size0: nat, count0: nat, free: nat, offset: nat, len: nat, count1: nat)
    requires
        len > 0,
        count0 == blocks_for(size0 as int),
        count0 <= MAX_PTRS,
        count1 == (if want_of(count0 as int, offset as int, len as int) <= count0 + free {
            want_of(count0 as int, offset as int, len as int)
        } else {
            (count0 + free) as int
        }),
    ensures
        write_plan(size0, count0, free, offset, len) == (Plan {
            count: count1,
            size: size_of(size0 as int, count1 * BLOCK_SIZE, offset as int, len as int) as nat,
            complete: offset + len <= count1 * BLOCK_SIZE,
        }),
        count1 == blocks_for(size_of(size0 as int, count1 * BLOCK_SIZE, offset as int, len as int)),
        count0 <= count1 <= MAX_PTRS,
        size0 <= size_of(size0 as int, count1 * BLOCK_SIZE, offset as int, len as int),
{
    reveal(write_plan);
}

/// The chain that a write leaves is as long as the new length needs, and a
/// directory still holds whole entries.
proof fn lemma_settled_size(size0: int, count0: int, free: int, offset: int, len: int, count1: int)
    requires
        len > 0,
        0 <= size0,
        0 <= offset,
        0 <= free,
        count0 == blocks_for(size0),
        count0 <= MAX_PTRS,
        count1 == (if want_of(count0, offset, len) <= count0 + free {
            want_of(count0, offset, len)
        } else {
            count0 + free
        }),
    ensures
        count1 == blocks_for(size_of(size0, count1 * BLOCK_SIZE, offset, len)),
        size0 % (ENTRY_SIZE as int) == 0 && offset % (ENTRY_SIZE as int) == 0 && len % (
        ENTRY_SIZE as int) == 0 ==> size_of(size0, count1 * BLOCK_SIZE, offset, len) % (
        ENTRY_SIZE as int) == 0,
{
}

/// How many blocks a write wants the chain to have.
fn wanted(count0: u32, offset: u32, len: usize) -> (want: u32)
    requires
        count0 <= MAX_PTRS,
    ensures
        want == want_of(count0 as int, offset as int, len as int),
        count0 <= want <= MAX_PTRS,
{
    let capped_len: u64 = if len > MAX_FILE_BYTES {
        MAX_FILE_BYTES as u64 + 1
    } else {
        len as u64
    };
    let capped_end: u64 = offset as u64 + capped_len;
    let need: u64 = (capped_end + BLOCK_SIZE as u64 - 1) / (BLOCK_SIZE as u64);
    if need <= MAX_PTRS as u64 {
        if need as u32 >= count0 {
            need as u32
        } else {
            count0
        }
    } else {
        MAX_PTRS as u32
    }
}

/// The gap to zero, the bytes that fit, the new length, and whether all fits.
fn settle(size0: u32, count0: u32, count1: u32, offset: u32, len: usize) -> (r: (
    usize,
    usize,
    u32,
    bool,
))
    requires
        count0 == blocks_for(size0 as int),
        count0 <= count1 <= MAX_PTRS,
        len > 0,
    ensures
        r.0 == gap_of(size0 as int, count0 * BLOCK_SIZE, offset as int),
        r.1 == fit_of(count1 * BLOCK_SIZE, offset as int, len as int),
        r.2 == size_of(size0 as int, count1 * BLOCK_SIZE, offset as int, len as int),
        r.3 == (offset + len <= count1 * BLOCK_SIZE),
        r.0 < BLOCK_SIZE,
        size0 + r.0 <= count0 * BLOCK_SIZE,
        r.1 <= len,
        r.1 > 0 ==> offset + r.1 <= count1 * BLOCK_SIZE,
{
    let size0: usize = size0 as usize;
    let limit0: usize = count0 as usize * BLOCK_SIZE;
    let limit: usize = count1 as usize * BLOCK_SIZE;
    let complete: bool = len <= limit && offset as u64 + len as u64 <= limit as u64;
    let gap: usize = if offset as u64 > size0 as u64 && size0 < limit0 {
        (if offset as u64 <= limit0 as u64 {
            offset as usize
        } else {
            limit0
        }) - size0
    } else {
        0
    };
    let m: usize = if (offset as u64) < limit as u64 {
        if len <= limit - offset as usize {
            len
        } else {
            limit - offset as usize
        }
    } else {
        0
    };
    let new_size: usize = if complete {
        if size0 >= offset as usize + len {
            size0
        } else {
            offset as usize + len
        }
    } else {
        limit
    };
    (gap, m, new_size as u32, complete)
}

/// The work of `put_bytes` for a write that is not empty; what it allocated
/// is left allocated when the transport fails.
#[verifier::spinoff_prover]
#[verifier::rlimit(40)]
fn put_grown<D: BlockDevice>(
    gbi: &mut GlobalBlockInterface<D>,
    loc: u32,
    ino: &mut Inode,
    offset: u32,
    src: &[u8],
) -> (r: Result<usize, Error>)
    requires
        old(gbi).wf(),
        old(ino).wf(),
        node_at(old(gbi)@, loc as int) == Some(old(ino)@),
        src@.len() > 0,
        old(ino).kind == EntryKind::Directory ==> offset % (ENTRY_SIZE as u32) == 0 && src@.len() % (
        ENTRY_SIZE as nat) == 0,
    ensures
        final(gbi).wf(),
        final(gbi)@.initialized,
        r matches Err(Error::IoError(_)) ==> forall|b: int|
            0 <= b < NUM_BLOCKS && old(gbi)@.bits[b] && !old(ino)@.ptrs.contains(b as u32)
                ==> final(gbi)@.disk[b] == old(gbi)@.disk[b],
        !(r matches Err(Error::IoError(_))) ==> final(ino).wf() && put_post(
            old(gbi)@,
            final(gbi)@,
            loc as int,
            old(ino)@,
            final(ino)@,
            offset as nat,
            src@,
            r,
        ),
{
    let ghost pre = gbi@;
    let ghost v0 = ino@;
    let len: usize = src.len();
    proof {
        gbi.lemma_wf();
        lemma_node_blocks(pre, loc as int, v0);
    }
    let size0: u32 = ino.size;
    let count0: u32 = ino.count;
    let want: u32 = wanted(count0, offset, len);
    if let Err(e) = grow(gbi, ino, loc, want) {
        return Err(e);
    }
    let ghost mid = gbi@;
    let ghost ptrs1 = ino@.ptrs;
    proof {
        gbi.lemma_wf();
        lemma_grown_blocks(pre, mid, v0.ptrs, ptrs1, loc as int, want as int);
    }
    let (gap, m, new_size, complete) = settle(size0, count0, ino.count, offset, len);
    if let Err(e) = fill(gbi, ino, size0 as usize, gap, offset as usize, src, m) {
        proof {
            lemma_io_frame(pre, mid, gbi@.disk, v0.ptrs, ptrs1, loc as int, want as int);
        }
        return Err(e);
    }
    let ghost d3 = gbi@.disk;
    ino.size = new_size;
    proof {
        gbi.lemma_wf();
        lemma_settled_size(
            size0 as int,
            count0 as int,
            pre.free() as int,
            offset as int,
            len as int,
            ino.count as int,
        );
    }
    if let Err(e) = save(gbi, loc, ino) {
        proof {
            lemma_io_frame(pre, mid, gbi@.disk, v0.ptrs, ptrs1, loc as int, want as int);
        }
        return Err(e);
    }
    let r: Result<usize, Error> = if complete {
        Ok(len)
    } else {
        Err(Error::NoSpace)
    };
    proof {
        lemma_put_done(
            pre,
            mid,
            d3,
            gbi@,
            loc as int,
            v0,
            ino@,
            offset as nat,
            src@,
            want as int,
            gap as nat,
            m as nat,
            r,
        );
    }
    r
}

/// Puts together what the steps of a write have shown.
#[verifier::rlimit(40)]
proof fn lemma_put_done(
    pre: GbiState,
    mid: GbiState,
    d3: Seq<Seq<u8>>,
    post: GbiState,
    loc: int,
    v0: InodeView,
    v1: InodeView,
    offset: nat,
    data: Seq<u8>,
    want: int,
    gap: nat,
    m: nat,
    r: Result<usize, Error>,
)
    requires
        pre.wf(),
        node_at(pre, loc) == Some(v0),
        data.len() > 0,
        want == want_of(v0.ptrs.len() as int, offset as int, data.len() as int),
        grow_post(pre, mid, v0.ptrs, v1.ptrs, loc, want),
        gap == gap_of(v0.size as int, v0.ptrs.len() * BLOCK_SIZE, offset as int),
        m == fit_of(v1.ptrs.len() * BLOCK_SIZE, offset as int, data.len() as int),
        v1.size == size_of(
            v0.size as int,
            v1.ptrs.len() * BLOCK_SIZE,
            offset as int,
            data.len() as int,
        ),
        v1.kind == v0.kind,
        d3.len() == NUM_BLOCKS,
        forall|b: int|
            0 <= b < NUM_BLOCKS && !v1.ptrs.contains(b as u32) ==> d3[b] == mid.disk[b],
        chain_bytes(d3, v1.ptrs) == patch(
            patch(chain_bytes(mid.disk, v1.ptrs), v0.size as int, zeros(gap)),
            offset as int,
            data.take(m as int),
        ),
        inode_of(post.disk[loc]) == Some(v1),
        post == (GbiState { disk: d3.update(loc, post.disk[loc]), ..mid }),
        r == if offset + data.len() <= v1.ptrs.len() * BLOCK_SIZE {
            Ok::<usize, Error>(data.len() as usize)
        } else {
            Err::<usize, Error>(Error::NoSpace)
        },
    ensures
        put_post(pre, post, loc, v0, v1, offset, data, r),
{
    reveal(grow_post);
    reveal(put_post);
    lemma_node_blocks(pre, loc, v0);
    lemma_plan(v0.size, v0.ptrs.len(), pre.free(), offset, data.len(), v1.ptrs.len());
    lemma_put_node(pre, mid, d3, post, loc, v0, v1, want);
    lemma_put_bytes_content(pre.disk, mid.disk, d3, post.disk, v0, v1, offset, data, gap, m);
}

/// The blocks of a grown chain are distinct blocks behind the metadata.
proof fn lemma_grown_blocks(
    pre: GbiState,
    mid: GbiState,
    ptrs0: Seq<u32>,
    ptrs1: Seq<u32>,
    loc: int,
    want: int,
)
    requires
        grow_post(pre, mid, ptrs0, ptrs1, loc, want),
    ensures
        distinct_blocks(ptrs1),
        forall|k: int| 0 <= k < ptrs1.len() ==> (#[trigger] ptrs1[k]) >= RESERVED_BLOCKS,
        ptrs0.len() <= ptrs1.len(),
        ptrs1.len() == (if want <= ptrs0.len() + pre.free() {
            want
        } else {
            (ptrs0.len() + pre.free()) as int
        }),
        mid.initialized == pre.initialized,
{
    reveal(grow_post);
    assert forall|k: int| 0 <= k < ptrs1.len() implies (#[trigger] ptrs1[k]) >= RESERVED_BLOCKS && ptrs1[k]
        < NUM_BLOCKS by {
        assert(ptr_ok(ptrs1[k], loc, mid.bits, pre.superblock.root as int));
    }
}

/// After a chain has grown, a change that stays inside the grown chain has
/// touched no block that was in use outside of the old chain.
proof fn lemma_io_frame(
    pre: GbiState,
    mid: GbiState,
    now: Seq<Seq<u8>>,
    ptrs0: Seq<u32>,
    ptrs1: Seq<u32>,
    loc: int,
    want: int,
)
    requires
        pre.bits.len() == NUM_BLOCKS,
        grow_post(pre, mid, ptrs0, ptrs1, loc, want),
        forall|b: int| 0 <= b < NUM_BLOCKS && !ptrs1.contains(b as u32) ==> now[b] == mid.disk[b],
    ensures
        forall|b: int|
            0 <= b < NUM_BLOCKS && pre.bits[b] && !ptrs0.contains(b as u32) ==> now[b] == pre.disk[b],
{
    reveal(grow_post);
    let added = ptrs1.skip(ptrs0.len() as int);
    assert forall|b: int| 0 <= b < NUM_BLOCKS && pre.bits[b] && !ptrs0.contains(b as u32) implies now[b]
        == pre.disk[b] by {
        lemma_old_or_new(ptrs0, ptrs1, b as u32);
        if added.contains(b as u32) {
            let k = choose|k: int| 0 <= k < added.len() && added[k] == b as u32;
            assert(is_first_clear(bits_after(pre.bits, added.take(k)), added[k] as int));
            lemma_in_added(pre.bits, added.take(k), b);
        }
    }
}

/// A bit of `bits_after` is set iff it was set or its block was added.
pub proof fn lemma_in_added(bits: Seq<bool>, added: Seq<u32>, b: int)
    requires
        0 <= b < bits.len(),
    ensures
        bits_after(bits, added)[b] == (bits[b] || added.contains(b as u32)),
{
}

/// Writes `src` at byte `offset` of the content of the record `ino` at block
/// `loc`, and writes the record back. The chain grows as the write needs;
/// where the write starts behind the old end, the bytes between are zeroes.
/// When blocks run out, what fits is written and the content ends where the
/// last block ends.
#[verifier::rlimit(40)]
pub fn put_bytes<D: BlockDevice>(
    gbi: &mut GlobalBlockInterface<D>,
    loc: u32,
    ino: &mut Inode,
    offset: u32,
    src: &[u8],
) -> (r: Result<usize, Error>)
    requires
        old(gbi).wf(),
        old(ino).wf(),
        node_at(old(gbi)@, loc as int) == Some(old(ino)@),
        old(ino).kind == EntryKind::Directory ==> offset % (ENTRY_SIZE as u32) == 0 && src@.len() % (
        ENTRY_SIZE as nat) == 0,
    ensures
        final(gbi).wf(),
        final(ino).wf(),
        put_post(
            old(gbi)@,
            final(gbi)@,
            loc as int,
            old(ino)@,
            final(ino)@,
            offset as nat,
            src@,
            r,
        ),
{
    let ghost pre = gbi@;
    let ghost v0 = ino@;
    proof {
        gbi.lemma_wf();
        lemma_node_blocks(pre, loc as int, v0);
    }
    if src.len() == 0 {
        proof {
            reveal(put_post);
            reveal(write_plan);
            assert(v0.ptrs.skip(v0.ptrs.len() as int) =~= Seq::<u32>::empty());
            assert(pre.bits =~= bits_after(pre.bits, Seq::<u32>::empty()));
            assert(v0.ptrs.take(v0.ptrs.len() as int) =~= v0.ptrs);
            assert(written(content(pre.disk, v0), offset as nat, src@).take(v0.size as int)
                =~= content(pre.disk, v0));
        }
        return Ok(0);
    }
    let mark = gbi.mark();
    let saved = *ino;
    let r = put_grown(gbi, loc, ino, offset, src);
    match r {
        Err(Error::IoError(e)) => {
            proof {
                gbi.lemma_wf();
            }
            gbi.rewind(mark);
            *ino = saved;
            proof {
                reveal(put_post);
            }
            Err(Error::IoError(e))
        },
        _ => r,
    }
}

/// A block of the grown chain's tail is a block of the grown chain.
pub proof fn lemma_skip_contains(s: Seq<u32>, n: int, x: u32)
    requires
        0 <= n <= s.len(),
    ensures
        s.skip(n).contains(x) ==> s.contains(x),
{
    if s.skip(n).contains(x) {
        let i = choose|i: int| 0 <= i < s.skip(n).len() && s.skip(n)[i] == x;
        assert(s[n + i] == x);
    }
}

/// A block of a chain's front is a block of the chain.
pub proof fn lemma_old_or_new(front: Seq<u32>, whole: Seq<u32>, x: u32)
    requires
        front.len() <= whole.len(),
        whole.take(front.len() as int) == front,
    ensures
        front.contains(x) ==> whole.contains(x),
        whole.contains(x) ==> front.contains(x) || whole.skip(front.len() as int).contains(x),
{
    if front.contains(x) {
        let i = choose|i: int| 0 <= i < front.len() && front[i] == x;
        assert(whole.take(front.len() as int)[i] == x);
        assert(whole[i] == x);
    }
    if whole.contains(x) {
        let i = choose|i: int| 0 <= i < whole.len() && whole[i] == x;
        if i < front.len() {
            assert(whole.take(front.len() as int)[i] == x);
        } else {
            assert(whole.skip(front.len() as int)[i - front.len()] == x);
        }
    }
}

/// The `n` bytes of `s` from `offset` on.
pub open spec fn slice_at(s: Seq<u8>, offset: nat, n: nat) -> Seq<u8> {
    Seq::new(n, |i: int| s[offset + i])
}

/// What a read that failed on the way leaves in the buffer: `p` bytes of
/// `bytes`, from `offset` on, at its front, for some `p` short of `most`. A
/// read of no bytes cannot fail.
pub open spec fn read_part(
    before: Seq<u8>,
    after: Seq<u8>,
    bytes: Seq<u8>,
    offset: nat,
    p: int,
    most: nat,
) -> bool {
    &&& 0 <= p < most
    &&& after == patch(before, 0, slice_at(bytes, offset, p as nat))
}

/// How many bytes a read of `len` bytes at `offset` gets from content of
/// `size` bytes.
pub open spec fn read_len(size: nat, offset: nat, len: nat) -> nat {
    if offset >= size {
        0
    } else if len <= size - offset {
        len
    } else {
        (size - offset) as nat
    }
}

/// Reads from byte `offset` of the content of `ino` into the front of `dst`,
/// up to the end of the content, and reports how many bytes it read.
pub fn get_bytes<D: BlockDevice>(
    gbi: &mut GlobalBlockInterface<D>,
    loc: u32,
    ino: &Inode,
    offset: u32,
    dst: &mut [u8],
) -> (r: Result<usize, Error>)
    requires
        old(gbi).wf(),
        ino.wf(),
        node_at(old(gbi)@, loc as int) == Some(ino@),
    ensures
        final(gbi).wf(),
        final(gbi)@ == old(gbi)@,
        final(dst)@.len() == old(dst)@.len(),
        match r {
            Ok(n) => {
                &&& n == read_len(ino@.size, offset as nat, old(dst)@.len())
                &&& final(dst)@ == patch(
                    old(dst)@,
                    0,
                    slice_at(content(old(gbi)@.disk, ino@), offset as nat, n as nat),
                )
            },
            Err(e) => e is IoError && exists|p: int|
                read_part(
                    old(dst)@,
                    final(dst)@,
                    content(old(gbi)@.disk, ino@),
                    offset as nat,
                    p,
                    read_len(ino@.size, offset as nat, old(dst)@.len()),
                ),
        },
{
    let len: usize = dst.len();
    let size: usize = ino.size as usize;
    let n: usize = if offset as u64 >= size as u64 {
        0
    } else if len <= size - offset as usize {
        len
    } else {
        size - offset as usize
    };
    proof {
        gbi.lemma_wf();
        lemma_node_blocks(gbi@, loc as int, ino@);
    }
    if n == 0 {
        proof {
            assert(dst@ =~= patch(
                old(dst)@,
                0,
                slice_at(content(old(gbi)@.disk, ino@), offset as nat, 0),
            ));
        }
        return Ok(0);
    }
    let ghost before = dst@;
    match read_chain(gbi, ino, offset as usize, dst, n) {
        Err(e) => {
            proof {
                let chain = chain_bytes(old(gbi)@.disk, ino@.ptrs);
                let bytes = content(old(gbi)@.disk, ino@);
                let after = dst@;
                let p = choose|p: int| read_part(before, after, chain, offset as nat, p, n as nat);
                assert(slice_at(chain, offset as nat, p as nat) =~= slice_at(
                    bytes,
                    offset as nat,
                    p as nat,
                ));
                assert(read_part(
                    old(dst)@,
                    dst@,
                    content(old(gbi)@.disk, ino@),
                    offset as nat,
                    p,
                    read_len(ino@.size, offset as nat, old(dst)@.len()),
                ));
            }
            Err(e)
        },
        Ok(()) => {
            proof {
                let chain = chain_bytes(old(gbi)@.disk, ino@.ptrs);
                assert(chain.subrange(offset as int, offset + n) =~= slice_at(
                    content(old(gbi)@.disk, ino@),
                    offset as nat,
                    n as nat,
                ));
            }
            Ok(n)
        },
    }
}

/// A write that its plan completes ends inside of what a record can hold.
pub proof fn lemma_complete_fits(size: nat, count: nat, free: nat, offset: nat, len: nat)
    requires
        count <= MAX_PTRS,
        write_plan(size, count, free, offset, len).complete,
        len > 0,
    ensures
        offset + len <= MAX_FILE_BYTES,
{
    reveal(write_plan);
}

} // verus!
