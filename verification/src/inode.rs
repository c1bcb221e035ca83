//! The record that describes one file or directory: its kind, its length in
//! bytes and the blocks that hold its content, in order. It fills one block.

use vstd::prelude::*;
use crate::layout::{get_u32, le32, put_u32, BLOCK_SIZE};

verus! {

/// Block pointers that one record can hold.
pub const MAX_PTRS: usize = 125;

/// The longest content that one record can describe.
pub const MAX_FILE_BYTES: usize = 64000;

/// Tag of a file's record.
pub const TAG_FILE: u32 = 1;

/// Tag of a directory's record.
pub const TAG_DIRECTORY: u32 = 2;

/// Bytes of one directory entry.
pub const ENTRY_SIZE: usize = 32;

/// What a record describes.
#[derive(Clone, Copy, Debug, PartialEq, Eq, Structural)]
pub enum EntryKind {
    File,
    Directory,
}

/// Blocks needed to hold `size` bytes.
pub open spec fn blocks_for(size: int) -> int {
    (size + BLOCK_SIZE - 1) / (BLOCK_SIZE as int)
}

/// A record as the contracts see it: the pointers are exactly those in use.
pub struct InodeView {
    pub kind: EntryKind,
    pub size: nat,
    pub ptrs: Seq<u32>,
}

/// The `k`-th pointer slot of a record block.
pub open spec fn slot(block: Seq<u8>, k: int) -> int {
    le32(block, 12 + 4 * k)
}

/// The record that a block spells, if it spells one: a known tag, a length
/// that fits, exactly as many blocks as the length needs, and for a directory
/// a whole number of entries.
pub open spec fn inode_of(block: Seq<u8>) -> Option<InodeView> {
    let tag = le32(block, 0);
    let size = le32(block, 4);
    let count = le32(block, 8);
    if block.len() == BLOCK_SIZE && (tag == TAG_FILE || tag == TAG_DIRECTORY) && count <= MAX_PTRS
        && count == blocks_for(size) && (tag == TAG_DIRECTORY ==> size % (ENTRY_SIZE as int) == 0) {
        Some(
            InodeView {
                kind: if tag == TAG_FILE {
                    EntryKind::File
                } else {
                    EntryKind::Directory
                },
                size: size as nat,
                ptrs: Seq::new(count as nat, |k: int| slot(block, k) as u32),
            },
        )
    } else {
        None
    }
}

/// A record in memory. Only the first `count` pointers mean anything.
#[derive(Clone, Copy, Debug)]
pub struct Inode {
    pub kind: EntryKind,
    pub size: u32,
    pub count: u32,
    pub ptrs: [u32; MAX_PTRS],
}

impl View for Inode {
    type V = InodeView;

    open spec fn view(&self) -> InodeView {
        InodeView { kind: self.kind, size: self.size as nat, ptrs: self.ptrs@.take(self.count as int) }
    }
}

impl Inode {
    /// The record has as many blocks as its length needs, and a directory
    /// holds whole entries.
    pub open spec fn wf(&self) -> bool {
        &&& self.count <= MAX_PTRS
        &&& self.count == blocks_for(self.size as int)
        &&& self.kind == EntryKind::Directory ==> self.size % (ENTRY_SIZE as u32) == 0
    }

    /// The record of an empty file or directory.
    pub fn empty(kind: EntryKind) -> (ino: Inode)
        ensures
            ino.wf(),
            ino@ == (InodeView { kind, size: 0, ptrs: Seq::empty() }),
    {
        let ino = Inode { kind, size: 0, count: 0, ptrs: [0u32; MAX_PTRS] };
        proof {
            assert(ino@.ptrs =~= Seq::empty());
        }
        ino
    }

    /// Reads a record from its block; `None` where the block spells none.
    pub fn decode(block: &[u8; BLOCK_SIZE]) -> (r: Option<Inode>)
        ensures
            match r {
                Some(ino) => ino.wf() && inode_of(block@) == Some(ino@),
                None => inode_of(block@) is None,
            },
    {
        let tag: u32 = get_u32(block, 0);
        let size: u32 = get_u32(block, 4);
        let count: u32 = get_u32(block, 8);
        if tag != TAG_FILE && tag != TAG_DIRECTORY {
            return None;
        }
        if count as usize > MAX_PTRS || size as usize > MAX_FILE_BYTES {
            return None;
        }
        if count as usize != (size as usize + BLOCK_SIZE - 1) / BLOCK_SIZE {
            return None;
        }
        if tag == TAG_DIRECTORY && size as usize % ENTRY_SIZE != 0 {
            return None;
        }
        let kind = if tag == TAG_FILE {
            EntryKind::File
        } else {
            EntryKind::Directory
        };
        let mut ino = Inode { kind, size, count, ptrs: [0u32; MAX_PTRS] };
        let mut k: usize = 0;
        while k < count as usize
            invariant
                k <= count,
                count <= MAX_PTRS,
                ino.kind == kind,
                ino.size == size,
                ino.count == count,
                forall|j: int| 0 <= j < k ==> ino.ptrs@[j] == slot(block@, j),
            decreases count - k,
        {
            let p: u32 = get_u32(block, 12 + 4 * k);
            ino.ptrs[k] = p;
            k += 1;
        }
        proof {
            assert(ino@.ptrs =~= inode_of(block@).unwrap().ptrs);
        }
        Some(ino)
    }

    /// Writes the record out as a block that spells it.
    pub fn encode(&self) -> (block: [u8; BLOCK_SIZE])
        requires
            self.wf(),
        ensures
            inode_of(block@) == Some(self@),
    {
        let mut block = [0u8; BLOCK_SIZE];
        let tag: u32 = match self.kind {
            EntryKind::File => TAG_FILE,
            EntryKind::Directory => TAG_DIRECTORY,
        };
        put_u32(&mut block, 0, tag);
        put_u32(&mut block, 4, self.size);
        put_u32(&mut block, 8, self.count);
        let mut k: usize = 0;
        while k < self.count as usize
            invariant
                k <= self.count,
                self.count <= MAX_PTRS,
                le32(block@, 0) == tag,
                le32(block@, 4) == self.size,
                le32(block@, 8) == self.count,
                forall|j: int| 0 <= j < k ==> slot(block@, j) == self.ptrs@[j],
            decreases self.count - k,
        {
            let ghost before = block@;
            put_u32(&mut block, 12 + 4 * k, self.ptrs[k]);
            proof {
                assert forall|j: int| 0 <= j < k implies slot(block@, j) == self.ptrs@[j] by {
                    assert(slot(before, j) == self.ptrs@[j]);
                }
            }
            k += 1;
        }
        proof {
            assert(inode_of(block@).unwrap().ptrs =~= self@.ptrs);
        }
        block
    }
}

} // verus!
