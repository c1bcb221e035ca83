//! The block interface: logical blocks that can be allocated, freed, read and
//! written, over one device that is mounted or formatted once.

use vstd::prelude::*;
use crate::bit_array::{bits_of, count_clear_in, is_first_clear, lemma_count_update, Bitmap};
use crate::block_device::{disk_shape, ready, BlockDevice};
use crate::error::{Error, IoError};
use crate::inode::{inode_of, EntryKind, Inode, InodeView};
use crate::layout::{
    get_u32, le32, patch, put_u32, BITMAP_INDEX, BLOCK_SIZE, NUM_BLOCKS, RESERVED_BLOCKS,
    ROOT_INDEX, SUPERBLOCK_INDEX,
};
use crate::sector::{
    byte_at, lemma_overlay_one_sector, lemma_stopped_in_one_sector, read_stopped_at, stopped_at,
    SectorAdapter,
};

verus! {

/// Signature of a formatted device.
pub const MAGIC: u32 = 0x4653_4B42;

/// Version of the layout.
pub const VERSION: u32 = 1;

/// What the first block records about the device.
#[derive(Clone, Copy, Debug, PartialEq, Eq, Structural)]
pub struct Superblock {
    pub total_blocks: u32,
    pub free_blocks: u32,
    pub root: u32,
}

/// The superblock that a block spells, if it carries the signature, the
/// version and the geometry of this layout.
pub open spec fn superblock_of(block: Seq<u8>) -> Option<Superblock> {
    if block.len() == BLOCK_SIZE && le32(block, 0) == MAGIC && le32(block, 4) == VERSION && le32(
        block,
        8,
    ) == NUM_BLOCKS && le32(block, 12) <= NUM_BLOCKS && RESERVED_BLOCKS <= le32(block, 16)
        < NUM_BLOCKS {
        Some(
            Superblock {
                total_blocks: NUM_BLOCKS as u32,
                free_blocks: le32(block, 12) as u32,
                root: le32(block, 16) as u32,
            },
        )
    } else {
        None
    }
}

impl Superblock {
    /// The geometry is the fixed one and the root lies behind the metadata.
    pub open spec fn wf(&self) -> bool {
        &&& self.total_blocks == NUM_BLOCKS
        &&& self.free_blocks <= NUM_BLOCKS
        &&& RESERVED_BLOCKS <= self.root < NUM_BLOCKS
    }

    /// Reads a superblock; `None` where the block does not spell one.
    pub fn decode(block: &[u8; BLOCK_SIZE]) -> (r: Option<Superblock>)
        ensures
            r == superblock_of(block@),
            r matches Some(sb) ==> sb.wf(),
    {
        let magic: u32 = get_u32(block, 0);
        let version: u32 = get_u32(block, 4);
        let total: u32 = get_u32(block, 8);
        let free: u32 = get_u32(block, 12);
        let root: u32 = get_u32(block, 16);
        if magic == MAGIC && version == VERSION && total as usize == NUM_BLOCKS && free as usize
            <= NUM_BLOCKS && RESERVED_BLOCKS <= root && (root as usize) < NUM_BLOCKS {
            Some(Superblock { total_blocks: total, free_blocks: free, root })
        } else {
            None
        }
    }

    /// Writes the superblock out as a block that spells it.
    pub fn encode(&self) -> (block: [u8; BLOCK_SIZE])
        requires
            self.wf(),
        ensures
            superblock_of(block@) == Some(*self),
    {
        let mut block = [0u8; BLOCK_SIZE];
        put_u32(&mut block, 0, MAGIC);
        put_u32(&mut block, 4, VERSION);
        put_u32(&mut block, 8, self.total_blocks);
        put_u32(&mut block, 12, self.free_blocks);
        put_u32(&mut block, 16, self.root);
        block
    }
}

/// The bitmap of a freshly formatted device: the two metadata blocks and the
/// root directory are in use, nothing else.
pub open spec fn fresh_bits() -> Seq<bool> {
    Seq::new(NUM_BLOCKS as nat, |i: int| i <= ROOT_INDEX)
}

/// The state of a block interface as the contracts see it.
pub struct GbiState {
    /// What the device holds, block by block.
    pub disk: Seq<Seq<u8>>,
    /// The bitmap in memory.
    pub bits: Seq<bool>,
    /// The superblock in memory.
    pub superblock: Superblock,
    /// Whether the device has been mounted or formatted.
    pub initialized: bool,
    /// Whether bitmap or superblock may differ from what the device holds.
    pub dirty: bool,
}

impl GbiState {
    /// The device holds the superblock and the bitmap that are in memory.
    pub open spec fn persisted(self) -> bool {
        &&& superblock_of(self.disk[SUPERBLOCK_INDEX as int]) == Some(self.superblock)
        &&& bits_of(self.disk[BITMAP_INDEX as int]) == self.bits
    }

    /// The state holds together: the free count is that of the bitmap, the
    /// metadata blocks and the root are in use, and a clean state is on the
    /// device.
    pub open spec fn wf(self) -> bool {
        &&& disk_shape(self.disk)
        &&& self.bits.len() == NUM_BLOCKS
        &&& self.initialized ==> {
            &&& self.superblock.wf()
            &&& self.superblock.free_blocks == count_clear_in(self.bits)
            &&& self.bits[SUPERBLOCK_INDEX as int]
            &&& self.bits[BITMAP_INDEX as int]
            &&& self.bits[self.superblock.root as int]
            &&& !self.dirty ==> self.persisted()
        }
    }

    /// Blocks that are free.
    pub open spec fn free(self) -> nat {
        self.superblock.free_blocks as nat
    }
}

/// The device carries a superblock of this layout.
pub open spec fn mountable(disk: Seq<Seq<u8>>) -> bool {
    superblock_of(disk[SUPERBLOCK_INDEX as int]) is Some
}

/// The bitmap on the device marks the metadata blocks and the root as in use.
pub open spec fn sound(disk: Seq<Seq<u8>>) -> bool {
    let bits = bits_of(disk[BITMAP_INDEX as int]);
    &&& bits[SUPERBLOCK_INDEX as int]
    &&& bits[BITMAP_INDEX as int]
    &&& bits[superblock_of(disk[SUPERBLOCK_INDEX as int]).unwrap().root as int]
}

/// What `try_init` does. On an interface that is initialised already it
/// changes nothing. Otherwise a device with a superblock is mounted: bitmap
/// and root are taken from it, the free count is counted anew, and no block
/// but a superblock with a stale count is rewritten. A device without one is
/// formatted: all blocks but the metadata and an empty root directory
/// become free, and no block behind the root is touched. It fails where the
/// transport fails, and with `Corrupted` on a device whose superblock is
/// there and whose bitmap does not mark the metadata and the root as in
/// use; then the interface stays uninitialised and no block behind the root
/// has changed.
pub open spec fn try_init_post(pre: GbiState, post: GbiState, r: Result<(), Error>) -> bool {
    if pre.initialized {
        r is Ok && post == pre
    } else {
        match r {
            Ok(()) => {
                &&& post.initialized
                &&& !post.dirty
                &&& post.persisted()
                &&& if mountable(pre.disk) {
                    let on_disk = superblock_of(pre.disk[SUPERBLOCK_INDEX as int]).unwrap();
                    &&& sound(pre.disk)
                    &&& post.bits == bits_of(pre.disk[BITMAP_INDEX as int])
                    &&& post.superblock.root == on_disk.root
                    &&& forall|b: int| 1 <= b < NUM_BLOCKS ==> post.disk[b] == pre.disk[b]
                    &&& on_disk.free_blocks == count_clear_in(post.bits) ==> post.disk == pre.disk
                } else {
                    &&& post.bits == fresh_bits()
                    &&& post.superblock.root == ROOT_INDEX
                    &&& inode_of(post.disk[ROOT_INDEX as int]) == Some(
                        InodeView { kind: EntryKind::Directory, size: 0, ptrs: Seq::empty() },
                    )
                    &&& forall|b: int| ROOT_INDEX < b < NUM_BLOCKS ==> post.disk[b] == pre.disk[b]
                }
            },
            Err(e) => {
                &&& !post.initialized
                &&& e is IoError || e == Error::Corrupted
                &&& e == Error::Corrupted ==> mountable(pre.disk) && !sound(pre.disk) && post.disk
                    == pre.disk
                &&& mountable(pre.disk) && !sound(pre.disk) ==> post.disk == pre.disk
                &&& forall|b: int| ROOT_INDEX < b < NUM_BLOCKS ==> post.disk[b] == pre.disk[b]
            },
        }
    }
}

/// Initialising twice gives what initialising once gave: a second call on
/// the same interface succeeds and changes nothing.
pub proof fn lemma_try_init_idempotent(
    s0: GbiState,
    s1: GbiState,
    s2: GbiState,
    r2: Result<(), Error>,
)
    requires
        try_init_post(s0, s1, Ok(())),
        try_init_post(s1, s2, r2),
    ensures
        r2 is Ok,
        s2 == s1,
{
}

/// Initialising does not reformat: an interface that starts on the device
/// that a first initialisation left mounts it, and ends with the same device
/// contents, bitmap and superblock, unless the transport fails.
pub proof fn lemma_try_init_remounts(
    s0: GbiState,
    s1: GbiState,
    fresh: GbiState,
    s2: GbiState,
    r2: Result<(), Error>,
)
    requires
        !s0.initialized,
        s1.wf(),
        s2.wf(),
        try_init_post(s0, s1, Ok(())),
        !fresh.initialized,
        fresh.disk == s1.disk,
        try_init_post(fresh, s2, r2),
        !(r2 matches Err(Error::IoError(_))),
    ensures
        r2 is Ok,
        s2.disk == s1.disk,
        s2.bits == s1.bits,
        s2.superblock == s1.superblock,
{
    assert(s1.persisted());
    assert(mountable(fresh.disk));
    assert(sound(fresh.disk));
}

/// Owns the device and the bitmap, and hands out logical blocks.
pub struct GlobalBlockInterface<D: BlockDevice> {
    adapter: SectorAdapter<D>,
    bitmap: Bitmap,
    superblock: Superblock,
    initialized: bool,
    dirty: bool,
}

impl<D: BlockDevice> View for GlobalBlockInterface<D> {
    type V = GbiState;

    closed spec fn view(&self) -> GbiState {
        GbiState {
            disk: self.adapter.sectors(),
            bits: self.bitmap@,
            superblock: self.superblock,
            initialized: self.initialized,
            dirty: self.dirty,
        }
    }
}

impl<D: BlockDevice> GlobalBlockInterface<D> {
    /// The device is in good order and the state holds together.
    pub closed spec fn wf(&self) -> bool {
        &&& self.adapter.inv()
        &&& self@.wf()
    }

    /// The device that the interface stands on.
    pub closed spec fn device(&self) -> D {
        self.adapter.device()
    }

    /// A well-formed interface has a well-formed state.
    pub proof fn lemma_wf(&self)
        requires
            self.wf(),
        ensures
            self@.wf(),
    {
    }

    /// An interface over `device`, not yet initialised.
    pub fn new(device: D) -> (g: Self)
        requires
            ready(&device),
        ensures
            g.wf(),
            !g@.initialized,
            g@.disk == device.sectors(),
            g.device() == device,
    {
        let adapter = SectorAdapter::new(device);
        proof {
            adapter.lemma_geometry();
        }
        GlobalBlockInterface {
            adapter,
            bitmap: Bitmap::new(),
            superblock: Superblock { total_blocks: 0, free_blocks: 0, root: 0 },
            initialized: false,
            dirty: false,
        }
    }

    /// Gives the device back. What was not flushed is lost.
    pub fn into_inner(self) -> (d: D)
        requires
            self.wf(),
        ensures
            ready(&d),
            d.sectors() == self@.disk,
            d == self.device(),
    {
        self.adapter.into_inner()
    }

    /// Reads block `index` whole.
    fn fetch(&mut self, index: u32, buf: &mut [u8; BLOCK_SIZE]) -> (r: Result<(), IoError>)
        requires
            old(self).wf(),
            index < NUM_BLOCKS,
        ensures
            final(self).wf(),
            final(self)@ == old(self)@,
            match r {
                Ok(()) => final(buf)@ == old(self)@.disk[index as int],
                Err(_) => final(buf)@ == old(buf)@,
            },
    {
        proof {
            self.adapter.lemma_geometry();
        }
        let ghost d = self.adapter.sectors();
        let ghost at: int = index * BLOCK_SIZE;
        let ghost before = buf@;
        match self.adapter.read(index as usize * BLOCK_SIZE, buf) {
            Ok(_) => {
                proof {
                    assert forall|k: int| 0 <= k < BLOCK_SIZE implies buf@[k] == d[index as int][k] by {
                        let i = index * BLOCK_SIZE + k;
                        assert(buf@[k] == byte_at(d, i));
                        assert(i / (BLOCK_SIZE as int) == index as int);
                        assert(i % (BLOCK_SIZE as int) == k);
                    }
                    assert(buf@ =~= d[index as int]);
                }
                Ok(())
            },
            Err(e) => {
                proof {
                    let after = buf@;
                    let p = choose|p: int| read_stopped_at(before, after, d, at, p);
                    assert(p == 0) by {
                        if p != 0 {
                            assert((index * BLOCK_SIZE + p) % (BLOCK_SIZE as int) == p % (
                            BLOCK_SIZE as int)) by (nonlinear_arith)
                                requires
                                    BLOCK_SIZE == 512,
                            ;
                        }
                    }
                    assert(after =~= before);
                }
                Err(e)
            },
        }
    }

    /// Lays `src` over block `index` from byte `within` on. A failed store
    /// changes nothing. A store of no bytes needs no transfer, and so
    /// succeeds whatever the transport does.
    fn store(&mut self, index: u32, within: usize, src: &[u8]) -> (r: Result<(), IoError>)
        requires
            old(self).wf(),
            index < NUM_BLOCKS,
            within + src@.len() <= BLOCK_SIZE,
            old(self)@.initialized ==> old(self)@.dirty || index >= RESERVED_BLOCKS,
        ensures
            final(self).wf(),
            match r {
                Ok(()) => final(self)@ == (GbiState {
                    disk: old(self)@.disk.update(
                        index as int,
                        patch(old(self)@.disk[index as int], within as int, src@),
                    ),
                    ..old(self)@
                }),
                Err(_) => final(self)@ == old(self)@,
            },
            src@.len() == 0 ==> r is Ok,
    {
        proof {
            self.adapter.lemma_geometry();
            lemma_overlay_one_sector(self.adapter.sectors(), index as int, within as int, src@);
        }
        let r = self.adapter.write(index as usize * BLOCK_SIZE + within, src);
        proof {
            self.adapter.lemma_geometry();
        }
        match r {
            Ok(_) => Ok(()),
            Err(e) => {
                proof {
                    let before = old(self).adapter.sectors();
                    let after = self.adapter.sectors();
                    let at: int = index * BLOCK_SIZE + within;
                    let data = src@;
                    let p = choose|p: int| stopped_at(before, after, at, data, p);
                    lemma_stopped_in_one_sector(
                        old(self).adapter.sectors(),
                        self.adapter.sectors(),
                        index as int,
                        within as int,
                        src@,
                        p,
                    );
                }
                Err(e)
            },
        }
    }

    /// Formats the device: an empty root directory, a bitmap with the
    /// metadata and the root in use, and last the superblock.
    #[verifier::rlimit(40)]
    fn format(&mut self) -> (r: Result<(), Error>)
        requires
            old(self).wf(),
            !old(self)@.initialized,
            !mountable(old(self)@.disk),
        ensures
            final(self).wf(),
            try_init_post(old(self)@, final(self)@, r),
    {
        let root_block = Inode::empty(EntryKind::Directory).encode();
        if let Err(e) = self.store(ROOT_INDEX, 0, &root_block) {
            return Err(Error::IoError(e));
        }
        let mut bitmap = Bitmap::new();
        bitmap.set(SUPERBLOCK_INDEX as usize, true);
        bitmap.set(BITMAP_INDEX as usize, true);
        bitmap.set(ROOT_INDEX as usize, true);
        if let Err(e) = self.store(BITMAP_INDEX, 0, &bitmap.bytes) {
            return Err(Error::IoError(e));
        }
        let free: usize = bitmap.count_clear();
        let superblock = Superblock {
            total_blocks: NUM_BLOCKS as u32,
            free_blocks: free as u32,
            root: ROOT_INDEX,
        };
        let sb_block = superblock.encode();
        if let Err(e) = self.store(SUPERBLOCK_INDEX, 0, &sb_block) {
            return Err(Error::IoError(e));
        }
        self.bitmap = bitmap;
        self.superblock = superblock;
        self.initialized = true;
        self.dirty = false;
        proof {
            let pre = old(self)@;
            let post = self@;
            assert(post.bits =~= fresh_bits());
            assert(post.disk[SUPERBLOCK_INDEX as int] =~= sb_block@);
            assert(post.disk[ROOT_INDEX as int] =~= root_block@);
            assert(bits_of(post.disk[BITMAP_INDEX as int]) =~= post.bits) by {
                let stored = post.disk[BITMAP_INDEX as int];
                assert(stored == patch(pre.disk[BITMAP_INDEX as int], 0, bitmap.bytes@));
                assert forall|i: int| 0 <= i < NUM_BLOCKS implies bits_of(stored)[i] == post.bits[i] by {
                    assert(stored[i / 8] == bitmap.bytes@[i / 8]);
                }
            }
        }
        Ok(())
    }

    /// Mounts a device whose first block spells `on_disk`.
    #[verifier::rlimit(40)]
    fn mount(&mut self, on_disk: Superblock) -> (r: Result<(), Error>)
        requires
            old(self).wf(),
            !old(self)@.initialized,
            superblock_of(old(self)@.disk[SUPERBLOCK_INDEX as int]) == Some(on_disk),
        ensures
            final(self).wf(),
            try_init_post(old(self)@, final(self)@, r),
    {
        let mut block = [0u8; BLOCK_SIZE];
        if let Err(e) = self.fetch(BITMAP_INDEX, &mut block) {
            return Err(Error::IoError(e));
        }
        let bitmap = Bitmap::from_bytes(&block);
        if !(bitmap.get(SUPERBLOCK_INDEX as usize) && bitmap.get(BITMAP_INDEX as usize)
            && bitmap.get(on_disk.root as usize)) {
            return Err(Error::Corrupted);
        }
        let free: usize = bitmap.count_clear();
        let superblock = Superblock {
            total_blocks: on_disk.total_blocks,
            free_blocks: free as u32,
            root: on_disk.root,
        };
        if superblock.free_blocks != on_disk.free_blocks {
            let sb_block = superblock.encode();
            if let Err(e) = self.store(SUPERBLOCK_INDEX, 0, &sb_block) {
                return Err(Error::IoError(e));
            }
            proof {
                assert(self@.disk[SUPERBLOCK_INDEX as int] =~= sb_block@);
            }
        }
        self.bitmap = bitmap;
        self.superblock = superblock;
        self.initialized = true;
        self.dirty = false;
        Ok(())
    }

    /// Mounts the device if it carries a superblock, and formats it if it
    /// carries none. On an interface that is initialised already nothing
    /// happens: a second call never reformats.
    pub fn try_init(&mut self) -> (r: Result<(), Error>)
        requires
            old(self).wf(),
        ensures
            final(self).wf(),
            try_init_post(old(self)@, final(self)@, r),
    {
        if self.initialized {
            return Ok(());
        }
        let mut block = [0u8; BLOCK_SIZE];
        if let Err(e) = self.fetch(SUPERBLOCK_INDEX, &mut block) {
            return Err(Error::IoError(e));
        }
        match Superblock::decode(&block) {
            Some(on_disk) => self.mount(on_disk),
            None => self.format(),
        }
    }

    /// Whether the device has been mounted or formatted.
    pub fn is_initialized(&self) -> (r: bool)
        ensures
            r == self@.initialized,
    {
        self.initialized
    }

    /// The block of the root directory.
    pub fn root(&self) -> (r: u32)
        ensures
            r == self@.superblock.root,
    {
        self.superblock.root
    }

    /// Blocks on the device.
    pub fn total_blocks(&self) -> (r: u32)
        ensures
            r == self@.superblock.total_blocks,
    {
        self.superblock.total_blocks
    }

    /// Blocks that are free.
    pub fn free_blocks(&self) -> (r: u32)
        ensures
            r == self@.superblock.free_blocks,
    {
        self.superblock.free_blocks
    }

    /// Whether block `index` is marked as in use.
    pub fn is_used(&self, index: u32) -> (r: bool)
        requires
            self.wf(),
        ensures
            r == (if index < NUM_BLOCKS { self@.bits[index as int] } else { true }),
    {
        self.bitmap.get(index as usize)
    }

    /// Hands out the lowest free block and marks it as in use. The block's
    /// content is whatever the device held there.
    pub fn allocate_block(&mut self) -> (r: Result<u32, Error>)
        requires
            old(self).wf(),
        ensures
            final(self).wf(),
            match r {
                Ok(i) => {
                    &&& old(self)@.initialized
                    &&& old(self)@.superblock.free_blocks > 0
                    &&& is_first_clear(old(self)@.bits, i as int)
                    &&& final(self)@ == (GbiState {
                        bits: old(self)@.bits.update(i as int, true),
                        superblock: Superblock {
                            free_blocks: (old(self)@.superblock.free_blocks - 1) as u32,
                            ..old(self)@.superblock
                        },
                        dirty: true,
                        ..old(self)@
                    })
                },
                Err(e) => {
                    &&& final(self)@ == old(self)@
                    &&& if !old(self)@.initialized {
                        e == Error::Uninitialized
                    } else {
                        e == Error::NoSpace && old(self)@.superblock.free_blocks == 0
                    }
                },
            },
            old(self)@.initialized && old(self)@.superblock.free_blocks > 0 ==> r is Ok,
    {
        if !self.initialized {
            return Err(Error::Uninitialized);
        }
        proof {
            crate::bit_array::lemma_count_zero(self.bitmap@);
        }
        match self.bitmap.find_first_clear() {
            None => Err(Error::NoSpace),
            Some(i) => {
                proof {
                    lemma_count_update(self.bitmap@, i as int, true);
                }
                self.bitmap.set(i, true);
                self.superblock.free_blocks = self.superblock.free_blocks - 1;
                self.dirty = true;
                Ok(i as u32)
            },
        }
    }

    /// Marks block `index` as free again. The metadata blocks, the root, a
    /// block that is free already and an index off the device are left alone.
    pub fn free_block(&mut self, index: u32)
        requires
            old(self).wf(),
        ensures
            final(self).wf(),
            final(self)@ == (if Self::can_free(old(self)@, index) {
                GbiState {
                    bits: old(self)@.bits.update(index as int, false),
                    superblock: Superblock {
                        free_blocks: (old(self)@.superblock.free_blocks + 1) as u32,
                        ..old(self)@.superblock
                    },
                    dirty: true,
                    ..old(self)@
                }
            } else {
                old(self)@
            }),
    {
        if !self.initialized || index < RESERVED_BLOCKS || index as usize >= NUM_BLOCKS || index
            == self.superblock.root || !self.bitmap.get(index as usize) {
            return ;
        }
        proof {
            lemma_count_update(self.bitmap@, index as int, false);
            crate::bit_array::lemma_count_bound(self.bitmap@.update(index as int, false));
        }
        self.bitmap.set(index as usize, false);
        self.superblock.free_blocks = self.superblock.free_blocks + 1;
        self.dirty = true;
    }

    /// Whether `free_block` would free block `index`.
    pub open spec fn can_free(s: GbiState, index: u32) -> bool {
        &&& s.initialized
        &&& RESERVED_BLOCKS <= index < NUM_BLOCKS
        &&& index != s.superblock.root
        &&& s.bits[index as int]
    }

    /// Reads block `index` into `buf`. The interface itself is left as it was.
    pub fn read_block(&mut self, index: u32, buf: &mut [u8; BLOCK_SIZE]) -> (r: Result<(), Error>)
        requires
            old(self).wf(),
        ensures
            final(self).wf(),
            final(self)@ == old(self)@,
            match r {
                Ok(()) => {
                    &&& old(self)@.initialized
                    &&& index < NUM_BLOCKS
                    &&& final(buf)@ == old(self)@.disk[index as int]
                },
                Err(e) => {
                    &&& final(buf)@ == old(buf)@
                    &&& if !old(self)@.initialized {
                        e == Error::Uninitialized
                    } else if index >= NUM_BLOCKS {
                        e == Error::OutOfRange
                    } else {
                        e is IoError
                    }
                },
            },
    {
        if !self.initialized {
            return Err(Error::Uninitialized);
        }
        if index as usize >= NUM_BLOCKS {
            return Err(Error::OutOfRange);
        }
        match self.fetch(index, buf) {
            Ok(()) => Ok(()),
            Err(e) => Err(Error::IoError(e)),
        }
    }

    /// Writes `buf` to block `index`. A failed write changes nothing.
    pub fn write_block(&mut self, index: u32, buf: &[u8; BLOCK_SIZE]) -> (r: Result<(), Error>)
        requires
            old(self).wf(),
        ensures
            final(self).wf(),
            match r {
                Ok(()) => {
                    &&& old(self)@.initialized
                    &&& index < NUM_BLOCKS
                    &&& final(self)@ == (GbiState {
                        disk: old(self)@.disk.update(index as int, buf@),
                        dirty: old(self)@.dirty || index < RESERVED_BLOCKS,
                        ..old(self)@
                    })
                },
                Err(e) => {
                    &&& final(self)@ == old(self)@
                    &&& if !old(self)@.initialized {
                        e == Error::Uninitialized
                    } else if index >= NUM_BLOCKS {
                        e == Error::OutOfRange
                    } else {
                        e is IoError
                    }
                },
            },
    {
        let r = self.write_at(index, 0, buf);
        proof {
            if r is Ok {
                assert(patch(old(self)@.disk[index as int], 0, buf@) =~= buf@);
            }
        }
        r
    }

    /// Lays `src` over block `index` from byte `within` on; the rest of the
    /// block keeps its bytes. A failed write changes nothing.
    pub fn write_at(&mut self, index: u32, within: usize, src: &[u8]) -> (r: Result<(), Error>)
        requires
            old(self).wf(),
        ensures
            final(self).wf(),
            match r {
                Ok(()) => {
                    &&& old(self)@.initialized
                    &&& index < NUM_BLOCKS
                    &&& within + src@.len() <= BLOCK_SIZE
                    &&& final(self)@ == (GbiState {
                        disk: old(self)@.disk.update(
                            index as int,
                            patch(old(self)@.disk[index as int], within as int, src@),
                        ),
                        dirty: old(self)@.dirty || index < RESERVED_BLOCKS,
                        ..old(self)@
                    })
                },
                Err(e) => {
                    &&& final(self)@ == old(self)@
                    &&& if !old(self)@.initialized {
                        e == Error::Uninitialized
                    } else if index >= NUM_BLOCKS || within + src@.len() > BLOCK_SIZE {
                        e == Error::OutOfRange
                    } else {
                        e is IoError
                    }
                },
            },
    {
        if !self.initialized {
            return Err(Error::Uninitialized);
        }
        if index as usize >= NUM_BLOCKS || within > BLOCK_SIZE || src.len() > BLOCK_SIZE - within {
            return Err(Error::OutOfRange);
        }
        let was_dirty = self.dirty;
        if index < RESERVED_BLOCKS {
            self.dirty = true;
        }
        match self.store(index, within, src) {
            Ok(()) => Ok(()),
            Err(e) => {
                self.dirty = was_dirty;
                Err(Error::IoError(e))
            },
        }
    }

    /// Writes bitmap and superblock to the device if they are dirty. After a
    /// failure they stay dirty, and no block behind the metadata has changed.
    #[verifier::rlimit(40)]
    pub fn flush(&mut self) -> (r: Result<(), Error>)
        requires
            old(self).wf(),
        ensures
            final(self).wf(),
            final(self)@.bits == old(self)@.bits,
            final(self)@.superblock == old(self)@.superblock,
            final(self)@.initialized == old(self)@.initialized,
            forall|b: int|
                RESERVED_BLOCKS <= b < NUM_BLOCKS ==> final(self)@.disk[b] == old(self)@.disk[b],
            !old(self)@.dirty || !old(self)@.initialized ==> final(self)@ == old(self)@,
            match r {
                Ok(()) => old(self)@.initialized && !final(self)@.dirty && final(self)@.persisted(),
                Err(e) => {
                    &&& final(self)@.dirty == old(self)@.dirty
                    &&& if !old(self)@.initialized {
                        e == Error::Uninitialized
                    } else {
                        e is IoError && old(self)@.dirty
                    }
                },
            },
    {
        if !self.initialized {
            return Err(Error::Uninitialized);
        }
        if !self.dirty {
            return Ok(());
        }
        let bytes = self.bitmap.bytes;
        if let Err(e) = self.store(BITMAP_INDEX, 0, &bytes) {
            return Err(Error::IoError(e));
        }
        let sb_block = self.superblock.encode();
        if let Err(e) = self.store(SUPERBLOCK_INDEX, 0, &sb_block) {
            return Err(Error::IoError(e));
        }
        self.dirty = false;
        proof {
            let pre = old(self)@;
            let post = self@;
            assert(post.disk[SUPERBLOCK_INDEX as int] =~= sb_block@);
            assert(bits_of(post.disk[BITMAP_INDEX as int]) =~= post.bits) by {
                let stored = post.disk[BITMAP_INDEX as int];
                assert(stored == patch(pre.disk[BITMAP_INDEX as int], 0, bytes@));
                assert forall|i: int| 0 <= i < NUM_BLOCKS implies bits_of(stored)[i] == post.bits[i] by {
                    assert(stored[i / 8] == bytes@[i / 8]);
                }
            }
        }
        Ok(())
    }

    /// The allocation state, to come back to with `rewind`.
    pub(crate) fn mark(&self) -> (m: (Bitmap, Superblock))
        requires
            self.wf(),
        ensures
            m.0@ == self@.bits,
            m.1 == self@.superblock,
    {
        (self.bitmap, self.superblock)
    }

    /// Puts back the allocation state that `mark` gave: what was allocated
    /// or freed since is undone. The device is not touched.
    pub(crate) fn rewind(&mut self, m: (Bitmap, Superblock))
        requires
            old(self).wf(),
            old(self)@.initialized,
            (GbiState { bits: m.0@, superblock: m.1, dirty: true, ..old(self)@ }).wf(),
        ensures
            final(self).wf(),
            final(self)@ == (GbiState { bits: m.0@, superblock: m.1, dirty: true, ..old(self)@ }),
    {
        self.bitmap = m.0;
        self.superblock = m.1;
        self.dirty = true;
    }
}

} // verus!
