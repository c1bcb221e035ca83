//! Byte-addressed access to a device that moves whole sectors only.

use vstd::prelude::*;
use crate::block_device::{disk_shape, ready, BlockDevice, Transfer};
use crate::error::IoError;
use crate::layout::{copy_bytes, patch, BLOCK_SIZE, DEVICE_BYTES, NUM_BLOCKS};

verus! {

/// How many bytes of a request of `len` bytes at byte `offset` lie on the
/// device.
pub open spec fn transfer_len(offset: int, len: int) -> int {
    if offset >= DEVICE_BYTES {
        0
    } else if len <= DEVICE_BYTES - offset {
        len
    } else {
        DEVICE_BYTES - offset
    }
}

/// The device image `d` with the first `n` bytes of `data` written at byte
/// `offset`: those bytes and no others differ from `d`.
pub open spec fn overlay(d: Seq<Seq<u8>>, offset: int, data: Seq<u8>, n: int) -> Seq<Seq<u8>> {
    Seq::new(
        d.len(),
        |s: int|
            Seq::new(
                d[s].len(),
                |j: int|
                    {
                        let i = s * BLOCK_SIZE + j;
                        if offset <= i < offset + n {
                            data[i - offset]
                        } else {
                            d[s][j]
                        }
                    },
            ),
    )
}

/// What a write that failed on the way leaves: the first `p` bytes are
/// written, for some `p` short of the whole transfer that ends where a
/// sector ends, or that is zero.
pub open spec fn stopped_at(
    before: Seq<Seq<u8>>,
    after: Seq<Seq<u8>>,
    offset: int,
    data: Seq<u8>,
    p: int,
) -> bool {
    &&& 0 <= p < transfer_len(offset, data.len() as int)
    &&& p == 0 || (offset + p) % (BLOCK_SIZE as int) == 0
    &&& after == overlay(before, offset, data, p)
}

/// The buffer `after` is `before` with its first `p` bytes read from byte
/// `offset` of the device image `d` on.
pub open spec fn read_through(
    before: Seq<u8>,
    after: Seq<u8>,
    d: Seq<Seq<u8>>,
    offset: int,
    p: int,
) -> bool {
    &&& after.len() == before.len()
    &&& forall|k: int|
        0 <= k < before.len() ==> after[k] == if k < p {
            byte_at(d, offset + k)
        } else {
            before[k]
        }
}

/// What a read that failed on the way leaves in the buffer: the first `p`
/// bytes are read, for some `p` short of the whole transfer that ends where
/// a sector ends or is zero. A transfer of no bytes cannot fail.
pub open spec fn read_stopped_at(
    before: Seq<u8>,
    after: Seq<u8>,
    d: Seq<Seq<u8>>,
    offset: int,
    p: int,
) -> bool {
    &&& 0 <= p < transfer_len(offset, before.len() as int)
    &&& p == 0 || (offset + p) % (BLOCK_SIZE as int) == 0
    &&& read_through(before, after, d, offset, p)
}

/// How many bytes of a request are moved in one go: from byte `pos` of the
/// device up to the end of its sector, or the `left` bytes that are left.
pub open spec fn chunk_at(pos: int, left: int) -> int {
    let room = BLOCK_SIZE - pos % (BLOCK_SIZE as int);
    if left < room {
        left
    } else {
        room
    }
}

/// A successful read of sector `sector`.
pub open spec fn read_of(sector: int) -> Transfer {
    Transfer { write: false, sector: sector as u32, ok: true }
}

/// A successful write of sector `sector`.
pub open spec fn write_of(sector: int) -> Transfer {
    Transfer { write: true, sector: sector as u32, ok: true }
}

/// The transfers that a read of `n` bytes at byte `offset` makes from byte
/// `done` of the request on: one read for every sector that it touches, in
/// ascending order.
pub open spec fn reads_from(offset: int, n: int, done: int) -> Seq<Transfer>
    decreases n - done,
{
    if done < 0 || done >= n {
        Seq::empty()
    } else {
        let pos = offset + done;
        seq![read_of(pos / (BLOCK_SIZE as int))] + reads_from(
            offset,
            n,
            done + chunk_at(pos, n - done),
        )
    }
}

/// The transfers that a write of `n` bytes at byte `offset` makes from byte
/// `done` of the request on, sector by sector in ascending order: a sector
/// that is written whole is written and not read; a sector that is written
/// in part is read and then written.
pub open spec fn writes_from(offset: int, n: int, done: int) -> Seq<Transfer>
    decreases n - done,
{
    if done < 0 || done >= n {
        Seq::empty()
    } else {
        let pos = offset + done;
        let sector = pos / (BLOCK_SIZE as int);
        let chunk = chunk_at(pos, n - done);
        let here = if chunk < BLOCK_SIZE {
            seq![read_of(sector), write_of(sector)]
        } else {
            seq![write_of(sector)]
        };
        here + writes_from(offset, n, done + chunk)
    }
}

/// The record of a request that broke off at transfer `k` of its plan: the
/// transfers before it succeeded, it failed, and none was made after it.
pub open spec fn broken_at(plan: Seq<Transfer>, k: int) -> Seq<Transfer> {
    plan.take(k).push(Transfer { ok: false, ..plan[k] })
}

/// The record `after` is the record `before` and then the plan up to
/// transfer `k`, which failed.
pub open spec fn broke_off(
    before: Seq<Transfer>,
    after: Seq<Transfer>,
    plan: Seq<Transfer>,
    k: int,
) -> bool {
    &&& 0 <= k < plan.len()
    &&& after == before + broken_at(plan, k)
}

/// One transfer of a plan has been made.
proof fn lemma_plan_step(
    before: Seq<Transfer>,
    plan: Seq<Transfer>,
    k: int,
    t: Transfer,
    rest: Seq<Transfer>,
)
    requires
        0 <= k <= plan.len(),
        plan.skip(k) == seq![t] + rest,
    ensures
        k < plan.len(),
        plan[k] == t,
        rest == plan.skip(k + 1),
        (before + plan.take(k)).push(t) == before + plan.take(k + 1),
        (before + plan.take(k)).push(Transfer { ok: false, ..t }) == before + broken_at(plan, k),
{
    let tail = plan.skip(k);
    assert(tail.len() == rest.len() + 1);
    assert(tail[0] == (seq![t] + rest)[0]);
    assert(plan[k] == t);
    assert forall|i: int| 0 <= i < rest.len() implies rest[i] == plan.skip(k + 1)[i] by {
        assert(tail[i + 1] == (seq![t] + rest)[i + 1]);
    }
    assert(rest =~= plan.skip(k + 1));
    assert(plan.take(k).push(t) =~= plan.take(k + 1));
    assert((before + plan.take(k)).push(t) =~= before + plan.take(k + 1));
    assert((before + plan.take(k)).push(Transfer { ok: false, ..t }) =~= before + broken_at(
        plan,
        k,
    ));
}

/// A write of whole sectors reads nothing: a write of `m` sectors that
/// starts where a sector starts makes `m` transfers, all of them writes, to
/// the sectors in ascending order.
pub proof fn lemma_aligned_write_reads_nothing(first: int, m: int, done: int, i: int)
    requires
        0 <= first,
        0 <= done <= m,
        0 <= i < m - done,
    ensures
        writes_from(first * BLOCK_SIZE, m * BLOCK_SIZE, done * BLOCK_SIZE).len() == m - done,
        writes_from(first * BLOCK_SIZE, m * BLOCK_SIZE, done * BLOCK_SIZE)[i] == write_of(
            first + done + i,
        ),
    decreases m - done,
{
    let offset = first * BLOCK_SIZE;
    let n = m * BLOCK_SIZE;
    let at = done * BLOCK_SIZE;
    let pos = offset + at;
    assert(pos % (BLOCK_SIZE as int) == 0);
    assert(pos / (BLOCK_SIZE as int) == first + done);
    assert(chunk_at(pos, n - at) == BLOCK_SIZE);
    let rest = writes_from(offset, n, (done + 1) * BLOCK_SIZE);
    assert(writes_from(offset, n, at) == seq![write_of(first + done)] + rest);
    lemma_aligned_len(first, m, done + 1);
    if i > 0 {
        lemma_aligned_write_reads_nothing(first, m, done + 1, i - 1);
    }
}

/// A write of whole sectors makes one transfer for each.
proof fn lemma_aligned_len(first: int, m: int, done: int)
    requires
        0 <= first,
        0 <= done <= m,
    ensures
        writes_from(first * BLOCK_SIZE, m * BLOCK_SIZE, done * BLOCK_SIZE).len() == m - done,
    decreases m - done,
{
    if done < m {
        let offset = first * BLOCK_SIZE;
        let n = m * BLOCK_SIZE;
        let at = done * BLOCK_SIZE;
        let pos = offset + at;
        assert(pos % (BLOCK_SIZE as int) == 0);
        assert(chunk_at(pos, n - at) == BLOCK_SIZE);
        let rest = writes_from(offset, n, (done + 1) * BLOCK_SIZE);
        assert(writes_from(offset, n, at) == seq![write_of(pos / (BLOCK_SIZE as int))] + rest);
        lemma_aligned_len(first, m, done + 1);
    }
}

/// The byte at byte address `i` of the device image `d`.
pub open spec fn byte_at(d: Seq<Seq<u8>>, i: int) -> u8 {
    d[i / (BLOCK_SIZE as int)][i % (BLOCK_SIZE as int)]
}

/// A write changes the addressed bytes and no others: a sector that is
/// written in part keeps the bytes in front of and behind the written range.
pub proof fn lemma_write_keeps_rest(d: Seq<Seq<u8>>, offset: int, data: Seq<u8>, n: int, i: int)
    requires
        disk_shape(d),
        0 <= offset,
        0 <= n <= data.len(),
        offset + n <= DEVICE_BYTES,
        0 <= i < DEVICE_BYTES,
    ensures
        byte_at(overlay(d, offset, data, n), i) == if offset <= i < offset + n {
            data[i - offset]
        } else {
            byte_at(d, i)
        },
        disk_shape(overlay(d, offset, data, n)),
{
    let s = i / (BLOCK_SIZE as int);
    let j = i % (BLOCK_SIZE as int);
    assert(0 <= s < NUM_BLOCKS);
    assert(s * BLOCK_SIZE + j == i);
}

/// A write that stays inside one sector changes that sector alone, by a
/// patch at the offset within it.
pub proof fn lemma_overlay_one_sector(d: Seq<Seq<u8>>, b: int, within: int, data: Seq<u8>)
    requires
        disk_shape(d),
        0 <= b < NUM_BLOCKS,
        0 <= within,
        within + data.len() <= BLOCK_SIZE,
    ensures
        overlay(d, b * BLOCK_SIZE + within, data, data.len() as int) == d.update(
            b,
            patch(d[b], within, data),
        ),
{
    let left = overlay(d, b * BLOCK_SIZE + within, data, data.len() as int);
    let right = d.update(b, patch(d[b], within, data));
    assert forall|s: int| 0 <= s < NUM_BLOCKS implies #[trigger] left[s] =~= right[s] by {}
    assert(left =~= right);
}

/// A failed write that was to stay inside one sector has changed nothing.
pub proof fn lemma_stopped_in_one_sector(
    before: Seq<Seq<u8>>,
    after: Seq<Seq<u8>>,
    b: int,
    within: int,
    data: Seq<u8>,
    p: int,
)
    requires
        disk_shape(before),
        0 <= b < NUM_BLOCKS,
        0 <= within,
        within + data.len() <= BLOCK_SIZE,
        stopped_at(before, after, b * BLOCK_SIZE + within, data, p),
    ensures
        after == before,
{
    assert(p == 0) by {
        if p != 0 {
            assert((b * BLOCK_SIZE + within + p) % (BLOCK_SIZE as int) == (within + p) % (
            BLOCK_SIZE as int)) by (nonlinear_arith)
                requires
                    BLOCK_SIZE == 512,
            ;
        }
    }
    assert forall|s: int| 0 <= s < NUM_BLOCKS implies #[trigger] after[s] =~= before[s] by {}
    assert(after =~= before);
}

/// Presents a sector device as a range of bytes: a request may start and end
/// anywhere, and a sector that is only partly addressed is read, changed and
/// written back.
pub struct SectorAdapter<D: BlockDevice> {
    device: D,
}

impl<D: BlockDevice> SectorAdapter<D> {
    /// What the device holds, sector by sector.
    pub closed spec fn sectors(&self) -> Seq<Seq<u8>> {
        self.device.sectors()
    }

    /// The transfers that the device was asked for, oldest first.
    pub closed spec fn log(&self) -> Seq<Transfer> {
        self.device.log()
    }

    /// The device is in good order.
    pub closed spec fn inv(&self) -> bool {
        ready(&self.device)
    }

    /// The device that the adapter stands on.
    pub closed spec fn device(&self) -> D {
        self.device
    }

    /// An adapter in good order stands on a device of the fixed geometry.
    pub proof fn lemma_geometry(&self)
        requires
            self.inv(),
        ensures
            disk_shape(self.sectors()),
    {
    }

    /// Wraps `device`.
    pub fn new(device: D) -> (a: Self)
        requires
            ready(&device),
        ensures
            a.inv(),
            a.sectors() == device.sectors(),
            a.log() == device.log(),
            a.device() == device,
    {
        SectorAdapter { device }
    }

    /// Gives the device back.
    pub fn into_inner(self) -> (d: D)
        requires
            self.inv(),
        ensures
            ready(&d),
            d.sectors() == self.sectors(),
            d.log() == self.log(),
            d == self.device(),
    {
        self.device
    }

    /// Reads the bytes from byte `offset` on into `dst`, as many as lie on the
    /// device, and reports their number. Nothing of `dst` past that number
    /// is touched, and the device is left as it was. Every sector that the
    /// request touches is read once, in ascending order. The first transfer
    /// that fails ends the read with the transport's error; a read of no
    /// bytes makes no transfer and succeeds.
    #[verifier::rlimit(40)]
    pub fn read(&mut self, offset: usize, dst: &mut [u8]) -> (r: Result<usize, IoError>)
        requires
            old(self).inv(),
        ensures
            final(self).inv(),
            final(self).sectors() == old(self).sectors(),
            final(dst)@.len() == old(dst)@.len(),
            match r {
                Ok(n) => {
                    &&& n == transfer_len(offset as int, old(dst)@.len() as int)
                    &&& read_through(old(dst)@, final(dst)@, old(self).sectors(), offset as int, n as int)
                    &&& final(self).log() == old(self).log() + reads_from(offset as int, n as int, 0)
                },
                Err(_) => {
                    &&& exists|p: int|
                        read_stopped_at(
                            old(dst)@,
                            final(dst)@,
                            old(self).sectors(),
                            offset as int,
                            p,
                        )
                    &&& exists|k: int|
                        broke_off(
                            old(self).log(),
                            final(self).log(),
                            reads_from(
                                offset as int,
                                transfer_len(offset as int, old(dst)@.len() as int),
                                0,
                            ),
                            k,
                        )
                },
            },
            transfer_len(offset as int, old(dst)@.len() as int) == 0 ==> r is Ok,
    {
        let len: usize = dst.len();
        let n: usize = if offset >= DEVICE_BYTES {
            0
        } else if len <= DEVICE_BYTES - offset {
            len
        } else {
            DEVICE_BYTES - offset
        };
        let mut done: usize = 0;
        let ghost plan = reads_from(offset as int, n as int, 0);
        let ghost asked = self.device.log();
        let ghost mut made: int = 0;
        proof {
            assert(plan.skip(0) =~= plan);
            assert(asked + plan.take(0) =~= asked);
        }
        while done < n
            invariant
                done <= n,
                n <= len,
                len == dst@.len(),
                len == old(dst)@.len(),
                plan == reads_from(offset as int, n as int, 0),
                asked == old(self).device.log(),
                0 <= made <= plan.len(),
                self.device.log() == asked + plan.take(made),
                reads_from(offset as int, n as int, done as int) == plan.skip(made),
                n > 0 ==> offset + n <= DEVICE_BYTES,
                n == transfer_len(offset as int, len as int),
                done == n || done == 0 || (offset + done) % (BLOCK_SIZE as int) == 0,
                ready(&self.device),
                self.device.sectors() == old(self).device.sectors(),
                forall|k: int| 0 <= k < done ==> dst@[k] == byte_at(self.device.sectors(), offset + k),
                forall|k: int| done <= k < len ==> dst@[k] == old(dst)@[k],
            decreases n - done,
        {
            let pos: usize = offset + done;
            let sector: usize = pos / BLOCK_SIZE;
            let within: usize = pos % BLOCK_SIZE;
            let room: usize = BLOCK_SIZE - within;
            let chunk: usize = if n - done < room {
                n - done
            } else {
                room
            };
            let mut scratch = [0u8; BLOCK_SIZE];
            proof {
                lemma_plan_step(
                    asked,
                    plan,
                    made,
                    read_of(sector as int),
                    reads_from(offset as int, n as int, done + chunk),
                );
            }
            match self.device.read(sector as u32, &mut scratch) {
                Err(e) => {
                    proof {
                        assert(read_stopped_at(
                            old(dst)@,
                            dst@,
                            old(self).sectors(),
                            offset as int,
                            done as int,
                        ));
                        assert(broke_off(
                            old(self).log(),
                            self.log(),
                            reads_from(
                                offset as int,
                                transfer_len(offset as int, old(dst)@.len() as int),
                                0,
                            ),
                            made,
                        ));
                    }
                    return Err(e);
                },
                Ok(_) => {},
            }
            proof {
                made = made + 1;
            }
            let ghost before = dst@;
            copy_bytes(dst, done, &scratch, within, chunk);
            proof {
                assert forall|k: int| 0 <= k < done + chunk implies dst@[k] == byte_at(
                    self.device.sectors(),
                    offset + k,
                ) by {
                    if k >= done {
                        let i = offset + k;
                        assert(i == sector * BLOCK_SIZE + (within + (k - done)));
                        assert(i / (BLOCK_SIZE as int) == sector as int);
                        assert(i % (BLOCK_SIZE as int) == within + (k - done));
                        assert(dst@[k] == scratch@.subrange(within as int, within + chunk)[k - done]);
                    } else {
                        assert(dst@[k] == before[k]);
                    }
                }
            }
            done += chunk;
        }
        proof {
            assert(plan.skip(made) =~= Seq::<Transfer>::empty());
            assert(plan.take(made) =~= plan);
        }
        Ok(n)
    }

    /// Writes the bytes of `src` from byte `offset` on, as many as lie on the
    /// device, and reports their number. Bytes of a sector that lie outside
    /// of the addressed range keep their value. A sector that is addressed
    /// whole is written and not read; one that is addressed in part is read,
    /// changed and written. The first transfer that fails ends the write
    /// with the transport's error; a write of no bytes makes no transfer
    /// and succeeds.
    #[verifier::rlimit(40)]
    pub fn write(&mut self, offset: usize, src: &[u8]) -> (r: Result<usize, IoError>)
        requires
            old(self).inv(),
        ensures
            final(self).inv(),
            match r {
                Ok(n) => {
                    &&& n == transfer_len(offset as int, src@.len() as int)
                    &&& final(self).sectors() == overlay(old(self).sectors(), offset as int, src@, n as int)
                    &&& final(self).log() == old(self).log() + writes_from(offset as int, n as int, 0)
                },
                Err(_) => {
                    &&& exists|p: int|
                        stopped_at(old(self).sectors(), final(self).sectors(), offset as int, src@, p)
                    &&& exists|k: int|
                        broke_off(
                            old(self).log(),
                            final(self).log(),
                            writes_from(
                                offset as int,
                                transfer_len(offset as int, src@.len() as int),
                                0,
                            ),
                            k,
                        )
                },
            },
            transfer_len(offset as int, src@.len() as int) == 0 ==> r is Ok,
    {
        let len: usize = src.len();
        let n: usize = if offset >= DEVICE_BYTES {
            0
        } else if len <= DEVICE_BYTES - offset {
            len
        } else {
            DEVICE_BYTES - offset
        };
        proof {
            assert(self.device.sectors() =~~= overlay(old(self).sectors(), offset as int, src@, 0));
        }
        let mut done: usize = 0;
        let ghost plan = writes_from(offset as int, n as int, 0);
        let ghost before = self.device.log();
        let ghost mut made: int = 0;
        proof {
            assert(plan.skip(0) =~= plan);
            assert(before + plan.take(0) =~= before);
        }
        while done < n
            invariant
                done <= n,
                n <= len,
                len == src@.len(),
                plan == writes_from(offset as int, n as int, 0),
                before == old(self).device.log(),
                0 <= made <= plan.len(),
                self.device.log() == before + plan.take(made),
                writes_from(offset as int, n as int, done as int) == plan.skip(made),
                n > 0 ==> offset + n <= DEVICE_BYTES,
                n == transfer_len(offset as int, src@.len() as int),
                done == n || done == 0 || (offset + done) % (BLOCK_SIZE as int) == 0,
                ready(&self.device),
                disk_shape(old(self).device.sectors()),
                self.device.sectors() == overlay(
                    old(self).device.sectors(),
                    offset as int,
                    src@,
                    done as int,
                ),
            decreases n - done,
        {
            let pos: usize = offset + done;
            let sector: usize = pos / BLOCK_SIZE;
            let within: usize = pos % BLOCK_SIZE;
            let room: usize = BLOCK_SIZE - within;
            let chunk: usize = if n - done < room {
                n - done
            } else {
                room
            };
            let ghost cur = self.device.sectors();
            let ghost later = writes_from(offset as int, n as int, done + chunk);
            let mut scratch = [0u8; BLOCK_SIZE];
            if chunk < BLOCK_SIZE {
                proof {
                    assert(seq![read_of(sector as int), write_of(sector as int)] + later =~= seq![
                        read_of(sector as int),
                    ] + (seq![write_of(sector as int)] + later));
                    lemma_plan_step(
                        before,
                        plan,
                        made,
                        read_of(sector as int),
                        seq![write_of(sector as int)] + later,
                    );
                }
                match self.device.read(sector as u32, &mut scratch) {
                    Err(e) => {
                        proof {
                            assert(stopped_at(
                                old(self).sectors(),
                                self.sectors(),
                                offset as int,
                                src@,
                                done as int,
                            ));
                            assert(broke_off(
                                old(self).log(),
                                self.log(),
                                writes_from(
                                    offset as int,
                                    transfer_len(offset as int, src@.len() as int),
                                    0,
                                ),
                                made,
                            ));
                        }
                        return Err(e);
                    },
                    Ok(_) => {},
                }
                proof {
                    made = made + 1;
                }
            }
            proof {
                lemma_plan_step(before, plan, made, write_of(sector as int), later);
            }
            let ghost fetched = scratch@;
            copy_bytes(&mut scratch, within, src, done, chunk);
            match self.device.write(sector as u32, &scratch) {
                Err(e) => {
                    proof {
                        assert(stopped_at(
                            old(self).sectors(),
                            self.sectors(),
                            offset as int,
                            src@,
                            done as int,
                        ));
                        assert(broke_off(
                                old(self).log(),
                                self.log(),
                                writes_from(
                                    offset as int,
                                    transfer_len(offset as int, src@.len() as int),
                                    0,
                                ),
                                made,
                            ));
                    }
                    return Err(e);
                },
                Ok(_) => {},
            }
            proof {
                made = made + 1;
            }
            proof {
                let want = overlay(old(self).device.sectors(), offset as int, src@, done + chunk);
                let got = self.device.sectors();
                assert(got == cur.update(sector as int, scratch@));
                assert forall|s: int| 0 <= s < NUM_BLOCKS implies #[trigger] got[s] =~= want[s] by {
                    if s == sector as int {
                        assert forall|j: int| 0 <= j < BLOCK_SIZE implies got[s][j] == want[s][j] by {
                            let i = s * BLOCK_SIZE + j;
                            if within <= j < within + chunk {
                                assert(scratch@[j] == src@.subrange(done as int, done + chunk)[j - within]);
                            } else {
                                assert(scratch@[j] == fetched[j]);
                                assert(chunk < BLOCK_SIZE);
                                assert(fetched[j] == cur[s][j]);
                            }
                        }
                    } else {
                        assert(got[s] == cur[s]);
                    }
                }
                assert(got =~= want);
            }
            done += chunk;
        }
        proof {
            assert(plan.skip(made) =~= Seq::<Transfer>::empty());
            assert(plan.take(made) =~= plan);
        }
        Ok(n)
    }
}

} // verus!
