//! Directories: content read as a list of fixed-size entries that name files
//! and subdirectories.

use vstd::prelude::*;
use crate::block_device::BlockDevice;
use crate::block_interface::{GbiState, GlobalBlockInterface, Superblock};
use crate::chain::{
    bits_without, chain_bytes, chain_ok, content, get_bytes, io_failed, lemma_chain_frame,
    lemma_node_blocks, node_at, ptr_ok, put_bytes, put_post, release, save, settled, slice_at, write_chain,
    write_plan, written,
};
use crate::error::Error;
use crate::inode::{
    blocks_for, inode_of, EntryKind, Inode, InodeView, ENTRY_SIZE, MAX_FILE_BYTES, MAX_PTRS,
    TAG_DIRECTORY, TAG_FILE,
};
use crate::layout::{
    copy_bytes, get_u32, le32, patch, put_u32, BLOCK_SIZE, NUM_BLOCKS, RESERVED_BLOCKS,
};

verus! {

/// The longest name that an entry can hold.
pub const MAX_NAME: usize = 24;

/// The byte that separates the components of a path.
pub const SEPARATOR: u8 = 47;

/// A name can stand in an entry: it is neither empty nor too long, and holds
/// no NUL byte and no separator.
pub open spec fn valid_name(name: Seq<u8>) -> bool {
    &&& 1 <= name.len() <= MAX_NAME
    &&& forall|i: int| 0 <= i < name.len() ==> name[i] != 0 && name[i] != SEPARATOR
}

/// An entry as the contracts see it.
pub struct EntryView {
    pub name: Seq<u8>,
    pub kind: EntryKind,
    pub location: u32,
}

/// The entry that a record of `ENTRY_SIZE` bytes spells, if it spells one: a
/// name length that fits, a known kind, and a block behind the metadata.
pub open spec fn entry_of(rec: Seq<u8>) -> Option<EntryView> {
    let n = rec[0];
    let tag = rec[1];
    let location = le32(rec, 4);
    if rec.len() == ENTRY_SIZE && 1 <= n <= MAX_NAME && (tag == TAG_FILE || tag == TAG_DIRECTORY)
        && RESERVED_BLOCKS <= location < NUM_BLOCKS {
        Some(
            EntryView {
                name: rec.subrange(8, 8 + n),
                kind: if tag == TAG_FILE {
                    EntryKind::File
                } else {
                    EntryKind::Directory
                },
                location: location as u32,
            },
        )
    } else {
        None
    }
}

/// The entries that the content of a directory spells; `None` stands for a
/// record that spells none.
pub open spec fn entries_of(bytes: Seq<u8>) -> Seq<Option<EntryView>> {
    Seq::new(
        bytes.len() / ENTRY_SIZE as nat,
        |k: int| entry_of(bytes.subrange(k * ENTRY_SIZE, k * ENTRY_SIZE + ENTRY_SIZE)),
    )
}

/// Looks for `name` from entry `from` on: the index of the first entry of
/// that name, `None` if there is none, and `Corrupted` if a record that
/// spells no entry comes first.
pub open spec fn scan(es: Seq<Option<EntryView>>, name: Seq<u8>, from: int) -> Result<
    Option<int>,
    Error,
>
    decreases es.len() - from,
{
    if from < 0 || from >= es.len() {
        Ok(None)
    } else {
        match es[from] {
            None => Err(Error::Corrupted),
            Some(e) => if e.name == name {
                Ok(Some(from))
            } else {
                scan(es, name, from + 1)
            },
        }
    }
}

/// The entries without entry `k`: the last entry takes its place.
pub open spec fn without(es: Seq<Option<EntryView>>, k: int) -> Seq<Option<EntryView>> {
    if k == es.len() - 1 {
        es.drop_last()
    } else {
        es.update(k, es.last()).drop_last()
    }
}

/// An entry in memory. Only the first `name_len` bytes of `name` count.
#[derive(Clone, Copy, Debug)]
pub struct DirEntry {
    pub name: [u8; MAX_NAME],
    pub name_len: u8,
    pub kind: EntryKind,
    pub location: u32,
}

impl View for DirEntry {
    type V = EntryView;

    open spec fn view(&self) -> EntryView {
        EntryView {
            name: self.name@.take(self.name_len as int),
            kind: self.kind,
            location: self.location,
        }
    }
}

impl DirEntry {
    /// The name fits and the block lies behind the metadata.
    pub open spec fn wf(&self) -> bool {
        &&& 1 <= self.name_len <= MAX_NAME
        &&& RESERVED_BLOCKS <= self.location < NUM_BLOCKS
    }

    /// An entry for `name`.
    pub fn new(name: &[u8], kind: EntryKind, location: u32) -> (e: DirEntry)
        requires
            1 <= name@.len() <= MAX_NAME,
            RESERVED_BLOCKS <= location < NUM_BLOCKS,
        ensures
            e.wf(),
            e@ == (EntryView { name: name@, kind, location }),
    {
        let n: usize = name.len();
        let mut e = DirEntry { name: [0u8; MAX_NAME], name_len: n as u8, kind, location };
        copy_bytes(&mut e.name, 0, name, 0, n);
        proof {
            assert(e@.name =~= name@);
        }
        e
    }

    /// The name.
    pub fn name(&self) -> (r: &[u8])
        requires
            self.wf(),
        ensures
            r@ == self@.name,
    {
        let n: usize = self.name_len as usize;
        let r = &self.name[0..n];
        proof {
            assert(r@ =~= self@.name);
        }
        r
    }

    /// Whether the entry's name is `name`.
    pub fn has_name(&self, name: &[u8]) -> (r: bool)
        requires
            self.wf(),
        ensures
            r == (self@.name == name@),
    {
        let n: usize = self.name_len as usize;
        if name.len() != n {
            return false;
        }
        let mut i: usize = 0;
        while i < n
            invariant
                i <= n,
                n == self.name_len,
                n == name@.len(),
                n <= MAX_NAME,
                forall|j: int| 0 <= j < i ==> self.name@[j] == name@[j],
            decreases n - i,
        {
            if self.name[i] != name[i] {
                proof {
                    assert(self@.name[i as int] != name@[i as int]);
                }
                return false;
            }
            i += 1;
        }
        proof {
            assert(self@.name =~= name@);
        }
        true
    }

    /// Reads an entry from its record; `None` where the record spells none.
    pub fn decode(rec: &[u8; ENTRY_SIZE]) -> (r: Option<DirEntry>)
        ensures
            match r {
                Some(e) => e.wf() && entry_of(rec@) == Some(e@),
                None => entry_of(rec@) is None,
            },
    {
        let n: u8 = rec[0];
        let tag: u8 = rec[1];
        let location: u32 = get_u32(rec, 4);
        if n < 1 || n as usize > MAX_NAME {
            return None;
        }
        if tag as u32 != TAG_FILE && tag as u32 != TAG_DIRECTORY {
            return None;
        }
        if location < RESERVED_BLOCKS || location as usize >= NUM_BLOCKS {
            return None;
        }
        let kind = if tag as u32 == TAG_FILE {
            EntryKind::File
        } else {
            EntryKind::Directory
        };
        let mut e = DirEntry { name: [0u8; MAX_NAME], name_len: n, kind, location };
        copy_bytes(&mut e.name, 0, rec, 8, n as usize);
        proof {
            assert(e@.name =~= rec@.subrange(8, 8 + n));
        }
        Some(e)
    }

    /// Writes the entry out as a record that spells it.
    pub fn encode(&self) -> (rec: [u8; ENTRY_SIZE])
        requires
            self.wf(),
        ensures
            entry_of(rec@) == Some(self@),
    {
        let mut rec = [0u8; ENTRY_SIZE];
        rec[0] = self.name_len;
        rec[1] = match self.kind {
            EntryKind::File => TAG_FILE as u8,
            EntryKind::Directory => TAG_DIRECTORY as u8,
        };
        put_u32(&mut rec, 4, self.location);
        copy_bytes(&mut rec, 8, &self.name, 0, self.name_len as usize);
        proof {
            assert(rec@.subrange(8, 8 + self.name_len) =~= self@.name);
        }
        rec
    }
}

/// Whether `name` can stand in an entry, and if not, why not.
pub fn check_name(name: &[u8]) -> (r: Result<(), Error>)
    ensures
        r == name_check(name@),
{
    let n: usize = name.len();
    if n > MAX_NAME {
        return Err(Error::NameTooLong);
    }
    if n == 0 {
        return Err(Error::InvalidName);
    }
    let mut i: usize = 0;
    while i < n
        invariant
            i <= n,
            1 <= n <= MAX_NAME,
            n == name@.len(),
            forall|j: int| 0 <= j < i ==> name@[j] != 0 && name@[j] != SEPARATOR,
        decreases n - i,
    {
        if name[i] == 0 || name[i] == SEPARATOR {
            proof {
                assert(!(name@[i as int] != 0 && name@[i as int] != SEPARATOR));
            }
            return Err(Error::InvalidName);
        }
        i += 1;
    }
    Ok(())
}

/// What `check_name` says of a name: too long, otherwise invalid, or fine.
pub open spec fn name_check(name: Seq<u8>) -> Result<(), Error> {
    if name.len() > MAX_NAME {
        Err(Error::NameTooLong)
    } else if !valid_name(name) {
        Err(Error::InvalidName)
    } else {
        Ok(())
    }
}

/// The entries of the directory whose record is `v`.
pub open spec fn entries_in(disk: Seq<Seq<u8>>, v: InodeView) -> Seq<Option<EntryView>> {
    entries_of(content(disk, v))
}

/// Reads entry `k` of the directory at `loc`.
pub fn read_entry<D: BlockDevice>(
    gbi: &mut GlobalBlockInterface<D>,
    loc: u32,
    ino: &Inode,
    k: u32,
) -> (r: Result<DirEntry, Error>)
    requires
        old(gbi).wf(),
        ino.wf(),
        node_at(old(gbi)@, loc as int) == Some(ino@),
        ino.kind == EntryKind::Directory,
        k < ino.size / (ENTRY_SIZE as u32),
    ensures
        final(gbi).wf(),
        final(gbi)@ == old(gbi)@,
        match r {
            Ok(e) => e.wf() && entries_in(old(gbi)@.disk, ino@)[k as int] == Some(e@),
            Err(e) => e is IoError || (e == Error::Corrupted && entries_in(old(gbi)@.disk, ino@)[k as int]
                is None),
        },
{
    let mut rec = [0u8; ENTRY_SIZE];
    proof {
        lemma_node_blocks(gbi@, loc as int, ino@);
    }
    match get_bytes(gbi, loc, ino, k * ENTRY_SIZE as u32, &mut rec) {
        Err(e) => Err(e),
        Ok(_) => {
            proof {
                let bytes = content(old(gbi)@.disk, ino@);
                assert(rec@ =~= bytes.subrange(k * ENTRY_SIZE, k * ENTRY_SIZE + ENTRY_SIZE));
            }
            match DirEntry::decode(&rec) {
                Some(e) => Ok(e),
                None => Err(Error::Corrupted),
            }
        },
    }
}

/// Looks for `name` in the directory at `loc`: the index and the entry of
/// the first entry of that name, if there is one. An empty directory is
/// searched without a transfer.
#[verifier::rlimit(40)]
pub fn find<D: BlockDevice>(
    gbi: &mut GlobalBlockInterface<D>,
    loc: u32,
    ino: &Inode,
    name: &[u8],
) -> (r: Result<Option<(u32, DirEntry)>, Error>)
    requires
        old(gbi).wf(),
        ino.wf(),
        node_at(old(gbi)@, loc as int) == Some(ino@),
        ino.kind == EntryKind::Directory,
    ensures
        final(gbi).wf(),
        final(gbi)@ == old(gbi)@,
        match r {
            Ok(Some((k, e))) => {
                &&& scan(entries_in(old(gbi)@.disk, ino@), name@, 0) == Ok::<Option<int>, Error>(
                    Some(k as int),
                )
                &&& k < ino.size / (ENTRY_SIZE as u32)
                &&& entries_in(old(gbi)@.disk, ino@)[k as int] == Some(e@)
                &&& e.wf()
                &&& e@.name == name@
            },
            Ok(None) => scan(entries_in(old(gbi)@.disk, ino@), name@, 0) == Ok::<Option<int>, Error>(
                None,
            ),
            Err(e) => if e is IoError {
                ino.size >= ENTRY_SIZE
            } else {
                e == Error::Corrupted && scan(entries_in(old(gbi)@.disk, ino@), name@, 0) == Err::<
                    Option<int>,
                    Error,
                >(Error::Corrupted)
            },
        },
{
    let ghost es = entries_in(gbi@.disk, ino@);
    let n: u32 = ino.size / ENTRY_SIZE as u32;
    let mut k: u32 = 0;
    while k < n
        invariant
            k <= n,
            n == ino.size / (ENTRY_SIZE as u32),
            n == es.len(),
            gbi.wf(),
            gbi@ == old(gbi)@,
            ino.wf(),
            node_at(gbi@, loc as int) == Some(ino@),
            ino.kind == EntryKind::Directory,
            es == entries_in(gbi@.disk, ino@),
            scan(es, name@, 0) == scan(es, name@, k as int),
        decreases n - k,
    {
        match read_entry(gbi, loc, ino, k) {
            Err(e) => {
                return Err(e);
            },
            Ok(e) => {
                if e.has_name(name) {
                    return Ok(Some((k, e)));
                }
            },
        }
        k = k + 1;
    }
    Ok(None)
}

/// What `append_entry` leaves. Unless the transport fails, the entry is
/// added as the last one if the directory has room for it: in its last
/// block, or in a new block if one is free and the record can hold one more.
/// Without room the directory stays as it is.
pub open spec fn append_post(
    pre: GbiState,
    post: GbiState,
    loc: int,
    v0: InodeView,
    v1: InodeView,
    e: EntryView,
    r: Result<(), Error>,
) -> bool {
    let plan = write_plan(v0.size, v0.ptrs.len(), pre.free(), v0.size, ENTRY_SIZE as nat);
    if r matches Err(Error::IoError(_)) {
        io_failed(pre, post, v0, v1)
    } else {
        &&& r == if plan.complete {
            Ok::<(), Error>(())
        } else {
            Err::<(), Error>(Error::NoSpace)
        }
        &&& settled(pre, post, loc, v0, v1, plan)
        &&& entries_in(post.disk, v1) == if plan.complete {
            entries_in(pre.disk, v0).push(Some(e))
        } else {
            entries_in(pre.disk, v0)
        }
    }
}

/// An entry written behind the content of a directory is its new last entry.
proof fn lemma_entries_push(before: Seq<u8>, rec: Seq<u8>, after: Seq<u8>)
    requires
        before.len() % (ENTRY_SIZE as nat) == 0,
        rec.len() == ENTRY_SIZE,
        after == written(before, before.len(), rec).take(before.len() + ENTRY_SIZE),
    ensures
        entries_of(after) == entries_of(before).push(entry_of(rec)),
{
    let left = entries_of(after);
    let right = entries_of(before).push(entry_of(rec));
    let n = before.len() / ENTRY_SIZE as nat;
    assert(after.len() == before.len() + ENTRY_SIZE);
    assert(left.len() == n + 1);
    assert forall|k: int| 0 <= k < left.len() implies left[k] == right[k] by {
        let piece = after.subrange(k * ENTRY_SIZE, k * ENTRY_SIZE + ENTRY_SIZE);
        if k < n {
            assert(piece =~= before.subrange(k * ENTRY_SIZE, k * ENTRY_SIZE + ENTRY_SIZE));
        } else {
            assert(piece =~= rec);
        }
    }
    assert(left =~= right);
}

/// A write that got nowhere has left the content as it was.
proof fn lemma_entries_same(before: Seq<u8>, rec: Seq<u8>, after: Seq<u8>)
    requires
        after == written(before, before.len(), rec).take(before.len() as int),
    ensures
        after == before,
{
    assert(after =~= before);
}

/// The plan of appending one entry: it is complete iff the directory has
/// room, and an incomplete one leaves the length as it is.
pub proof fn lemma_append_plan(size: nat, count: nat, free: nat)
    requires
        count == blocks_for(size as int),
        count <= MAX_PTRS,
        size % (ENTRY_SIZE as nat) == 0,
    ensures
        ({
            let plan = write_plan(size, count, free, size, ENTRY_SIZE as nat);
            let grows = size % (BLOCK_SIZE as nat) == 0;
            &&& plan.complete == (size + ENTRY_SIZE <= MAX_FILE_BYTES && (!grows || free >= 1))
            &&& plan.complete ==> plan.size == size + ENTRY_SIZE && plan.count == count + if grows {
                1nat
            } else {
                0nat
            }
            &&& !plan.complete ==> plan.size == size && plan.count == count
        }),
{
    reveal(write_plan);
}

/// Adds `e` as the last entry of the directory at `loc`.
#[verifier::rlimit(40)]
pub fn append_entry<D: BlockDevice>(
    gbi: &mut GlobalBlockInterface<D>,
    loc: u32,
    ino: &mut Inode,
    e: &DirEntry,
) -> (r: Result<(), Error>)
    requires
        old(gbi).wf(),
        old(ino).wf(),
        node_at(old(gbi)@, loc as int) == Some(old(ino)@),
        old(ino).kind == EntryKind::Directory,
        e.wf(),
    ensures
        final(gbi).wf(),
        final(ino).wf(),
        append_post(old(gbi)@, final(gbi)@, loc as int, old(ino)@, final(ino)@, e@, r),
{
    let rec = e.encode();
    let ghost pre = gbi@;
    let ghost v0 = ino@;
    proof {
        lemma_node_blocks(pre, loc as int, v0);
        lemma_append_plan(v0.size, v0.ptrs.len(), pre.free());
    }
    let r = put_bytes(gbi, loc, ino, ino.size, &rec);
    proof {
        reveal(put_post);
        let before = content(pre.disk, v0);
        let after = content(gbi@.disk, ino@);
        if !(r matches Err(Error::IoError(_))) {
            if r is Ok {
                lemma_entries_push(before, rec@, after);
            } else {
                lemma_entries_same(before, rec@, after);
            }
        }
    }
    match r {
        Ok(_) => Ok(()),
        Err(e) => Err(e),
    }
}

/// What `remove_entry` leaves when it succeeds: the directory at `loc` is
/// one entry shorter, the last entry stands where entry `k` stood, a block
/// that holds no entry any more is free again, and no block outside of the
/// directory has changed.
pub open spec fn remove_post(
    pre: GbiState,
    post: GbiState,
    loc: int,
    v0: InodeView,
    v1: InodeView,
    k: int,
) -> bool {
    let new_size = (v0.size - ENTRY_SIZE) as nat;
    let new_count = blocks_for(new_size as int);
    &&& v1 == (InodeView { kind: v0.kind, size: new_size, ptrs: v0.ptrs.take(new_count) })
    &&& node_at(post, loc) == Some(v1)
    &&& entries_in(post.disk, v1) == without(entries_in(pre.disk, v0), k)
    &&& post.bits == bits_without(pre.bits, v0.ptrs.skip(new_count))
    &&& post.superblock == (Superblock {
        free_blocks: (pre.superblock.free_blocks + (v0.ptrs.len() - new_count)) as u32,
        ..pre.superblock
    })
    &&& post.initialized
    &&& forall|b: int|
        0 <= b < NUM_BLOCKS && b != loc && !v0.ptrs.contains(b as u32) ==> post.disk[b]
            == pre.disk[b]
}

/// The front of a chain holds the front of its bytes.
pub proof fn lemma_chain_take(disk: Seq<Seq<u8>>, ptrs: Seq<u32>, c: int)
    requires
        0 <= c <= ptrs.len(),
    ensures
        chain_bytes(disk, ptrs.take(c)) == chain_bytes(disk, ptrs).take(c * BLOCK_SIZE),
{
    let left = chain_bytes(disk, ptrs.take(c));
    let right = chain_bytes(disk, ptrs).take(c * BLOCK_SIZE);
    assert(left.len() == right.len());
    assert forall|i: int| 0 <= i < left.len() implies left[i] == right[i] by {
        let b = i / (BLOCK_SIZE as int);
        assert(0 <= b < c);
        assert(ptrs.take(c)[b] == ptrs[b]);
    }
    assert(left =~= right);
}

/// Entries of a directory's bytes after the last record has been laid over
/// record `k` and the length cut by one record.
proof fn lemma_entries_without(chain: Seq<u8>, size: nat, k: int, after: Seq<u8>)
    requires
        size <= chain.len(),
        size % (ENTRY_SIZE as nat) == 0,
        size >= ENTRY_SIZE,
        0 <= k < size / ENTRY_SIZE as nat,
        after == (if k == size / ENTRY_SIZE as nat - 1 {
            chain
        } else {
            patch(
                chain,
                k * ENTRY_SIZE,
                slice_at(chain.take(size as int), (size - ENTRY_SIZE) as nat, ENTRY_SIZE as nat),
            )
        }).take(size - ENTRY_SIZE),
    ensures
        entries_of(after) == without(entries_of(chain.take(size as int)), k),
{
    let before = chain.take(size as int);
    let es = entries_of(before);
    let n = size / ENTRY_SIZE as nat;
    let last = n - 1;
    let left = entries_of(after);
    let right = without(es, k);
    assert(after.len() == size - ENTRY_SIZE);
    assert(left.len() == n - 1);
    assert(right.len() == n - 1);
    let rec = slice_at(before, (size - ENTRY_SIZE) as nat, ENTRY_SIZE as nat);
    assert(rec =~= before.subrange(last * ENTRY_SIZE, last * ENTRY_SIZE + ENTRY_SIZE));
    assert forall|j: int| 0 <= j < left.len() implies left[j] == right[j] by {
        let piece = after.subrange(j * ENTRY_SIZE, j * ENTRY_SIZE + ENTRY_SIZE);
        if j == k && k != last {
            assert(piece =~= rec);
        } else {
            assert(piece =~= before.subrange(j * ENTRY_SIZE, j * ENTRY_SIZE + ENTRY_SIZE));
        }
    }
    assert(left =~= right);
}

/// Puts together what the steps of `remove_entry` have shown.
#[verifier::rlimit(40)]
proof fn lemma_remove_done(
    pre: GbiState,
    d2: Seq<Seq<u8>>,
    mid: GbiState,
    post: GbiState,
    loc: int,
    v0: InodeView,
    v1: InodeView,
    k: int,
)
    requires
        pre.wf(),
        node_at(pre, loc) == Some(v0),
        v0.kind == EntryKind::Directory,
        0 <= k < v0.size / ENTRY_SIZE as nat,
        v1 == (InodeView {
            kind: v0.kind,
            size: (v0.size - ENTRY_SIZE) as nat,
            ptrs: v0.ptrs.take(blocks_for(v0.size - ENTRY_SIZE)),
        }),
        d2.len() == NUM_BLOCKS,
        forall|b: int| 0 <= b < NUM_BLOCKS && !v0.ptrs.contains(b as u32) ==> d2[b] == pre.disk[b],
        chain_bytes(d2, v0.ptrs) == (if k == v0.size / ENTRY_SIZE as nat - 1 {
            chain_bytes(pre.disk, v0.ptrs)
        } else {
            patch(
                chain_bytes(pre.disk, v0.ptrs),
                k * ENTRY_SIZE,
                slice_at(content(pre.disk, v0), (v0.size - ENTRY_SIZE) as nat, ENTRY_SIZE as nat),
            )
        }),
        inode_of(mid.disk[loc]) == Some(v1),
        mid == (GbiState { disk: d2.update(loc, mid.disk[loc]), ..pre }),
        post == (GbiState {
            bits: bits_without(pre.bits, v0.ptrs.skip(blocks_for(v0.size - ENTRY_SIZE))),
            superblock: Superblock {
                free_blocks: (pre.superblock.free_blocks + (v0.ptrs.len() - blocks_for(
                    v0.size - ENTRY_SIZE,
                ))) as u32,
                ..pre.superblock
            },
            dirty: post.dirty,
            ..mid
        }),
    ensures
        remove_post(pre, post, loc, v0, v1, k),
{
    let root = pre.superblock.root as int;
    let new_size = (v0.size - ENTRY_SIZE) as nat;
    let new_count = blocks_for(new_size as int);
    let gone = v0.ptrs.skip(new_count);
    lemma_node_blocks(pre, loc, v0);
    assert forall|j: int| 0 <= j < v0.ptrs.len() implies post.disk[#[trigger] v0.ptrs[j] as int] == d2[v0.ptrs[j] as int] by {
        assert(ptr_ok(v0.ptrs[j], loc, pre.bits, root));
    }
    lemma_chain_frame(d2, post.disk, v0.ptrs);
    lemma_chain_take(post.disk, v0.ptrs, new_count);
    let chain = chain_bytes(pre.disk, v0.ptrs);
    let after = content(post.disk, v1);
    assert(after =~= chain_bytes(post.disk, v0.ptrs).take(new_size as int));
    lemma_entries_without(chain, v0.size, k, after);
    assert forall|j: int| 0 <= j < v1.ptrs.len() implies ptr_ok(
        #[trigger] v1.ptrs[j],
        loc,
        post.bits,
        root,
    ) by {
        assert(v1.ptrs[j] == v0.ptrs[j]);
        assert(ptr_ok(v0.ptrs[j], loc, pre.bits, root));
        if gone.contains(v0.ptrs[j]) {
            let i = choose|i: int| 0 <= i < gone.len() && gone[i] == v0.ptrs[j];
            assert(v0.ptrs[new_count + i] == v0.ptrs[j]);
        }
    }
    assert(post.bits[loc]) by {
        if gone.contains(loc as u32) {
            let i = choose|i: int| 0 <= i < gone.len() && gone[i] == loc as u32;
            assert(v0.ptrs[new_count + i] == loc as u32);
            assert(v0.ptrs.contains(loc as u32));
        }
    }
    assert(chain_ok(v1.ptrs, loc, post.bits, root));
}

/// Takes entry `k` out of the directory at `loc`: the last entry moves to
/// its place, the record is written back one entry shorter, and a block
/// that is no longer needed is freed.
#[verifier::rlimit(40)]
pub fn remove_entry<D: BlockDevice>(
    gbi: &mut GlobalBlockInterface<D>,
    loc: u32,
    ino: &mut Inode,
    k: u32,
) -> (r: Result<(), Error>)
    requires
        old(gbi).wf(),
        old(ino).wf(),
        node_at(old(gbi)@, loc as int) == Some(old(ino)@),
        old(ino).kind == EntryKind::Directory,
        k < old(ino).size / (ENTRY_SIZE as u32),
    ensures
        final(gbi).wf(),
        final(ino).wf(),
        match r {
            Ok(()) => remove_post(old(gbi)@, final(gbi)@, loc as int, old(ino)@, final(ino)@, k as int),
            Err(e) => e is IoError && io_failed(old(gbi)@, final(gbi)@, old(ino)@, final(ino)@),
        },
{
    let ghost pre = gbi@;
    let ghost v0 = ino@;
    proof {
        gbi.lemma_wf();
        lemma_node_blocks(pre, loc as int, v0);
    }
    let saved = *ino;
    let n: u32 = ino.size / ENTRY_SIZE as u32;
    let last: u32 = n - 1;
    if k != last {
        let mut rec = [0u8; ENTRY_SIZE];
        if let Err(e) = get_bytes(gbi, loc, ino, last * ENTRY_SIZE as u32, &mut rec) {
            return Err(e);
        }
        proof {
            assert(rec@ =~= slice_at(
                content(pre.disk, v0),
                (v0.size - ENTRY_SIZE) as nat,
                ENTRY_SIZE as nat,
            ));
        }
        if let Err(e) = write_chain(gbi, ino, k as usize * ENTRY_SIZE, &rec) {
            return Err(e);
        }
    }
    let ghost d2 = gbi@.disk;
    let new_size: u32 = ino.size - ENTRY_SIZE as u32;
    let new_count: u32 = ((new_size as usize + BLOCK_SIZE - 1) / BLOCK_SIZE) as u32;
    ino.size = new_size;
    ino.count = new_count;
    proof {
        gbi.lemma_wf();
        assert(ino@.ptrs =~= v0.ptrs.take(new_count as int));
    }
    if let Err(e) = save(gbi, loc, ino) {
        *ino = saved;
        return Err(e);
    }
    let ghost mid = gbi@;
    proof {
        gbi.lemma_wf();
    }
    release(gbi, &saved, loc, new_count);
    proof {
        lemma_remove_done(pre, d2, mid, gbi@, loc as int, v0, ino@, k as int);
    }
    Ok(())
}

/// A name that the entries do not hold is found at the end once an entry of
/// that name has been pushed.
pub proof fn lemma_scan_push(es: Seq<Option<EntryView>>, e: EntryView, name: Seq<u8>, from: int)
    requires
        0 <= from <= es.len(),
        scan(es, name, from) == Ok::<Option<int>, Error>(None),
        e.name == name,
    ensures
        scan(es.push(Some(e)), name, from) == Ok::<Option<int>, Error>(Some(es.len() as int)),
    decreases es.len() - from,
{
    let longer = es.push(Some(e));
    if from < es.len() {
        assert(longer[from] == es[from]);
        lemma_scan_push(es, e, name, from + 1);
    } else {
        assert(longer[from] == Some(e));
    }
}

/// No two entries have the same name.
pub open spec fn unique_names(es: Seq<Option<EntryView>>) -> bool {
    forall|i: int, j: int|
        0 <= i < j < es.len() && es[i] is Some && es[j] is Some ==> es[i].unwrap().name
            != es[j].unwrap().name
}

/// Where a scan finds nothing, no entry from there on has the name.
pub proof fn lemma_scan_none(es: Seq<Option<EntryView>>, name: Seq<u8>, from: int, i: int)
    requires
        0 <= from <= i < es.len(),
        scan(es, name, from) == Ok::<Option<int>, Error>(None),
    ensures
        es[i] is Some,
        es[i].unwrap().name != name,
    decreases es.len() - from,
{
    if from < i {
        lemma_scan_none(es, name, from + 1, i);
    }
}

/// Names stay unique when an entry is added whose name a scan did not find.
pub proof fn lemma_push_keeps_unique(es: Seq<Option<EntryView>>, e: EntryView)
    requires
        unique_names(es),
        scan(es, e.name, 0) == Ok::<Option<int>, Error>(None),
    ensures
        unique_names(es.push(Some(e))),
{
    let longer = es.push(Some(e));
    assert forall|i: int, j: int|
        0 <= i < j < longer.len() && longer[i] is Some && longer[j] is Some implies longer[i].unwrap().name
            != longer[j].unwrap().name by {
        if j == es.len() {
            lemma_scan_none(es, e.name, 0, i);
            assert(longer[i] == es[i]);
        } else {
            assert(longer[i] == es[i] && longer[j] == es[j]);
        }
    }
}

/// Names stay unique when an entry is taken out.
pub proof fn lemma_without_keeps_unique(es: Seq<Option<EntryView>>, k: int)
    requires
        unique_names(es),
        0 <= k < es.len(),
    ensures
        unique_names(without(es, k)),
{
    let rest = without(es, k);
    let last = es.len() - 1;
    assert forall|i: int, j: int|
        0 <= i < j < rest.len() && rest[i] is Some && rest[j] is Some implies rest[i].unwrap().name
            != rest[j].unwrap().name by {
        let a = if i == k {
            last
        } else {
            i
        };
        let b = if j == k {
            last
        } else {
            j
        };
        assert(rest[i] == es[a]);
        assert(rest[j] == es[b]);
        assert(a != b);
        if a < b {
        } else {
            assert(es[b].unwrap().name != es[a].unwrap().name);
        }
    }
}

} // verus!
