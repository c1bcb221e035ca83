//! The sector transport that the engine runs on, and a device held in memory.

use vstd::prelude::*;
use crate::error::IoError;
use crate::layout::{BLOCK_SIZE, NUM_BLOCKS};

verus! {

/// A device image has `NUM_BLOCKS` sectors of `BLOCK_SIZE` bytes.
pub open spec fn disk_shape(d: Seq<Seq<u8>>) -> bool {
    &&& d.len() == NUM_BLOCKS
    &&& forall|s: int| 0 <= s < NUM_BLOCKS ==> (#[trigger] d[s]).len() == BLOCK_SIZE
}

/// One transfer that a device was asked for: a read or a write of one
/// sector, and whether it succeeded.
pub struct Transfer {
    pub write: bool,
    pub sector: u32,
    pub ok: bool,
}

/// The device is in good order and has the fixed geometry.
pub open spec fn ready<D: BlockDevice>(device: &D) -> bool {
    &&& device.inv()
    &&& disk_shape(device.sectors())
}

/// A raw transport of whole sectors. Either call may fail at any time; a
/// failed call leaves the device as it was.
pub trait BlockDevice {
    /// What the device holds, sector by sector. A device that gives no
    /// account of itself holds nothing that the contracts know of.
    open spec fn sectors(&self) -> Seq<Seq<u8>> {
        Seq::empty()
    }

    /// The transport's own invariant. A device that gives no account of
    /// itself has none that holds: nothing is proved of it.
    open spec fn inv(&self) -> bool {
        false
    }

    /// The transfers that the device was asked for, oldest first. A device
    /// that gives no account of itself records none.
    open spec fn log(&self) -> Seq<Transfer> {
        Seq::empty()
    }

    /// Reads sector `sector` into `dst` and reports the bytes read.
    fn read(&mut self, sector: u32, dst: &mut [u8; BLOCK_SIZE]) -> (r: Result<usize, IoError>)
        requires
            old(self).inv(),
            disk_shape(old(self).sectors()),
        ensures
            final(self).inv(),
            final(self).sectors() == old(self).sectors(),
            final(self).log() == old(self).log().push(
                Transfer { write: false, sector, ok: r is Ok },
            ),
            r matches Ok(n) ==> n == BLOCK_SIZE && sector < NUM_BLOCKS && final(dst)@ == old(
                self,
            ).sectors()[sector as int],
    ;

    /// Writes `src` to sector `sector` and reports the bytes written.
    fn write(&mut self, sector: u32, src: &[u8; BLOCK_SIZE]) -> (r: Result<usize, IoError>)
        requires
            old(self).inv(),
            disk_shape(old(self).sectors()),
        ensures
            final(self).inv(),
            final(self).log() == old(self).log().push(
                Transfer { write: true, sector, ok: r is Ok },
            ),
            r matches Ok(n) ==> n == BLOCK_SIZE && sector < NUM_BLOCKS && final(self).sectors()
                == old(self).sectors().update(sector as int, src@),
            r is Err ==> final(self).sectors() == old(self).sectors(),
    ;
}

/// A device kept in memory. It can be told to fail after a number of
/// transfers, so that callers can be exercised against a failing transport.
pub struct RamDisk {
    blocks: Vec<[u8; BLOCK_SIZE]>,
    limited: bool,
    budget: u32,
    asked: Ghost<Seq<Transfer>>,
}

impl RamDisk {
    /// Whether the next transfer will be refused: the disk is limited and
    /// no transfer is left.
    pub open spec fn exhausted(&self) -> bool {
        self.remaining() == Some(0u32)
    }

    /// Transfers left before the disk starts to fail, if it is limited.
    pub closed spec fn remaining(&self) -> Option<u32> {
        if self.limited {
            Some(self.budget)
        } else {
            None
        }
    }

    /// A disk of zeroes that never fails.
    pub fn new() -> (d: RamDisk)
        ensures
            ready(&d),
            d.remaining() is None,
            d.log() == Seq::<Transfer>::empty(),
            forall|s: int, j: int|
                0 <= s < NUM_BLOCKS && 0 <= j < BLOCK_SIZE ==> (#[trigger] d.sectors()[s][j]) == 0,
    {
        let mut blocks: Vec<[u8; BLOCK_SIZE]> = Vec::new();
        let mut i: usize = 0;
        while i < NUM_BLOCKS
            invariant
                i <= NUM_BLOCKS,
                blocks@.len() == i,
                forall|s: int, j: int|
                    0 <= s < i && 0 <= j < BLOCK_SIZE ==> (#[trigger] blocks@[s]@[j]) == 0,
            decreases NUM_BLOCKS - i,
        {
            blocks.push([0u8; BLOCK_SIZE]);
            i += 1;
        }
        RamDisk { blocks, limited: false, budget: 0, asked: Ghost(Seq::empty()) }
    }

    /// From now on the next `transfers` reads and writes succeed and every
    /// later one fails.
    pub fn fail_after(&mut self, transfers: u32)
        requires
            ready(old(self)),
        ensures
            ready(final(self)),
            final(self).sectors() == old(self).sectors(),
            final(self).log() == old(self).log(),
            final(self).remaining() == Some(transfers),
    {
        self.limited = true;
        self.budget = transfers;
    }

    /// From now on no transfer fails.
    pub fn heal(&mut self)
        requires
            ready(old(self)),
        ensures
            ready(final(self)),
            final(self).sectors() == old(self).sectors(),
            final(self).log() == old(self).log(),
            final(self).remaining() is None,
    {
        self.limited = false;
    }

    /// Takes one transfer from the budget; `false` when none is left.
    fn spend(&mut self) -> (ok: bool)
        requires
            old(self).inv(),
        ensures
            final(self).inv(),
            final(self).sectors() == old(self).sectors(),
            final(self).asked@ == old(self).asked@,
            ok == !old(self).exhausted(),
            final(self).remaining() == match old(self).remaining() {
                Some(n) => Some(if n > 0 { (n - 1) as u32 } else { 0u32 }),
                None => None,
            },
    {
        if self.limited {
            if self.budget == 0 {
                return false;
            }
            self.budget = self.budget - 1;
        }
        true
    }
}

impl BlockDevice for RamDisk {
    closed spec fn sectors(&self) -> Seq<Seq<u8>> {
        Seq::new(self.blocks@.len(), |s: int| self.blocks@[s]@)
    }

    closed spec fn inv(&self) -> bool {
        self.blocks@.len() == NUM_BLOCKS
    }

    closed spec fn log(&self) -> Seq<Transfer> {
        self.asked@
    }

    /// Succeeds iff the sector exists and the budget is not spent.
    fn read(&mut self, sector: u32, dst: &mut [u8; BLOCK_SIZE]) -> (r: Result<usize, IoError>)
        ensures
            r is Ok <==> sector < NUM_BLOCKS && !old(self).exhausted(),
            final(self).remaining() == match old(self).remaining() {
                Some(n) => Some(if n > 0 { (n - 1) as u32 } else { 0u32 }),
                None => None,
            },
    {
        let ok: bool = self.spend() && (sector as usize) < NUM_BLOCKS;
        proof {
            self.asked@ = self.asked@.push(Transfer { write: false, sector, ok });
        }
        if !ok {
            return Err(IoError);
        }
        *dst = self.blocks[sector as usize];
        Ok(BLOCK_SIZE)
    }

    /// Succeeds iff the sector exists and the budget is not spent.
    fn write(&mut self, sector: u32, src: &[u8; BLOCK_SIZE]) -> (r: Result<usize, IoError>)
        ensures
            r is Ok <==> sector < NUM_BLOCKS && !old(self).exhausted(),
            final(self).remaining() == match old(self).remaining() {
                Some(n) => Some(if n > 0 { (n - 1) as u32 } else { 0u32 }),
                None => None,
            },
    {
        let ok: bool = self.spend() && (sector as usize) < NUM_BLOCKS;
        proof {
            self.asked@ = self.asked@.push(Transfer { write: true, sector, ok });
        }
        if !ok {
            return Err(IoError);
        }
        self.blocks[sector as usize] = *src;
        proof {
            assert(self.sectors() =~= old(self).sectors().update(sector as int, src@));
        }
        Ok(BLOCK_SIZE)
    }
}

} // verus!
