//! The tree of directories: making and removing what entries name, and
//! following a path from a directory.

use vstd::prelude::*;
use crate::bit_array::is_first_clear;
use crate::block_device::BlockDevice;
use crate::block_interface::{GbiState, GlobalBlockInterface, Superblock};
use crate::chain::{
    bits_after, bits_without, chain_ok, content, io_failed, lemma_chain_frame, lemma_node_blocks,
    lemma_skip_contains, load, lowest_first, node_at, ptr_ok, release, save,
};
use crate::dir::{
    append_entry, check_name, entries_in, find, lemma_append_plan, lemma_push_keeps_unique,
    lemma_without_keeps_unique, name_check, remove_entry, scan, unique_names, valid_name, without,
    DirEntry, EntryView,
};
use crate::error::Error;
use crate::inode::{
    blocks_for, inode_of, EntryKind, Inode, InodeView, ENTRY_SIZE, MAX_FILE_BYTES, MAX_PTRS,
};
use crate::layout::{BLOCK_SIZE, NUM_BLOCKS, RESERVED_BLOCKS};

verus! {

/// The record of an empty file or directory.
pub open spec fn fresh_node(kind: EntryKind) -> InodeView {
    InodeView { kind, size: 0, ptrs: Seq::empty() }
}

/// A record stays sound while its own block keeps its bytes and its blocks
/// stay marked as in use.
pub proof fn lemma_node_stable(pre: GbiState, post: GbiState, loc: int, v: InodeView)
    requires
        node_at(pre, loc) == Some(v),
        post.initialized,
        post.superblock.root == pre.superblock.root,
        post.disk[loc] == pre.disk[loc],
        post.bits[loc],
        forall|k: int| 0 <= k < v.ptrs.len() ==> post.bits[#[trigger] v.ptrs[k] as int],
    ensures
        node_at(post, loc) == Some(v),
{
    let root = pre.superblock.root as int;
    assert forall|k: int| 0 <= k < v.ptrs.len() implies ptr_ok(
        #[trigger] v.ptrs[k],
        loc,
        post.bits,
        root,
    ) by {
        assert(ptr_ok(v.ptrs[k], loc, pre.bits, root));
    }
}

/// Content stays the same while the blocks that hold it keep their bytes.
pub proof fn lemma_content_stable(before: Seq<Seq<u8>>, after: Seq<Seq<u8>>, v: InodeView)
    requires
        forall|k: int|
            0 <= k < v.ptrs.len() ==> after[#[trigger] v.ptrs[k] as int] == before[v.ptrs[k] as int],
    ensures
        content(after, v) == content(before, v),
{
    lemma_chain_frame(before, after, v.ptrs);
}

/// Whether the directory `v0` and the device have room for one more entry
/// and the record that it names: the entry fits in the directory's last
/// block or a block is free for it, and a block is free for the record.
pub open spec fn create_room(v0: InodeView, free: nat) -> bool {
    &&& v0.size + ENTRY_SIZE <= MAX_FILE_BYTES
    &&& free >= if v0.size % (BLOCK_SIZE as nat) == 0 {
        2nat
    } else {
        1nat
    }
}

/// What `create` leaves. Without room nothing changes. With room, and
/// unless the transport fails, the lowest free block holds the record of an
/// empty file or directory, and the parent has a new last entry that names
/// it.
pub open spec fn create_post(
    pre: GbiState,
    post: GbiState,
    parent: int,
    v0: InodeView,
    v1: InodeView,
    name: Seq<u8>,
    kind: EntryKind,
    r: Result<u32, Error>,
) -> bool {
    match r {
        Err(Error::IoError(_)) => create_room(v0, pre.free()) && io_failed(pre, post, v0, v1),
        Err(e) => e == Error::NoSpace && !create_room(v0, pre.free()) && post == pre && v1 == v0,
        Ok(loc) => {
            let added = v1.ptrs.skip(v0.ptrs.len() as int);
            let taken = pre.bits.update(loc as int, true);
            &&& create_room(v0, pre.free())
            &&& is_first_clear(pre.bits, loc as int)
            &&& node_at(post, loc as int) == Some(fresh_node(kind))
            &&& node_at(post, parent) == Some(v1)
            &&& v1.kind == v0.kind
            &&& v1.size == v0.size + ENTRY_SIZE
            &&& v1.ptrs.take(v0.ptrs.len() as int) == v0.ptrs
            &&& entries_in(post.disk, v1) == entries_in(pre.disk, v0).push(
                Some(EntryView { name, kind, location: loc }),
            )
            &&& lowest_first(taken, added)
            &&& post.bits == bits_after(taken, added)
            &&& post.superblock == (Superblock {
                free_blocks: (pre.superblock.free_blocks - 1 - added.len()) as u32,
                ..pre.superblock
            })
            &&& post.initialized
            &&& forall|b: int|
                0 <= b < NUM_BLOCKS && b != parent && b != loc && !v1.ptrs.contains(b as u32)
                    ==> post.disk[b] == pre.disk[b]
        },
    }
}

/// A block that was free when a chain was sound, and that was taken before
/// the chain grew, is no block of the grown chain.
proof fn lemma_new_block_apart(
    bits: Seq<bool>,
    ptrs0: Seq<u32>,
    ptrs1: Seq<u32>,
    loc: u32,
    parent: int,
    root: int,
)
    requires
        bits.len() == NUM_BLOCKS,
        loc < NUM_BLOCKS,
        !bits[loc as int],
        chain_ok(ptrs0, parent, bits, root),
        ptrs0.len() <= ptrs1.len(),
        ptrs1.take(ptrs0.len() as int) == ptrs0,
        lowest_first(bits.update(loc as int, true), ptrs1.skip(ptrs0.len() as int)),
    ensures
        !ptrs1.contains(loc),
{
    let added = ptrs1.skip(ptrs0.len() as int);
    let taken = bits.update(loc as int, true);
    if ptrs1.contains(loc) {
        let i = choose|i: int| 0 <= i < ptrs1.len() && ptrs1[i] == loc;
        if i < ptrs0.len() {
            assert(ptrs1.take(ptrs0.len() as int)[i] == ptrs0[i]);
            assert(ptr_ok(ptrs0[i], parent, bits, root));
        } else {
            let j = i - ptrs0.len();
            assert(added[j] == loc);
            assert(is_first_clear(bits_after(taken, added.take(j)), added[j] as int));
        }
    }
}

/// Puts together what the steps of `create` have shown.
#[verifier::rlimit(40)]
proof fn lemma_create_done(
    pre: GbiState,
    mid: GbiState,
    post: GbiState,
    parent: int,
    v0: InodeView,
    v1: InodeView,
    e: EntryView,
    loc: u32,
)
    requires
        pre.wf(),
        mid.wf(),
        node_at(pre, parent) == Some(v0),
        v0.kind == EntryKind::Directory,
        create_room(v0, pre.free()),
        is_first_clear(pre.bits, loc as int),
        inode_of(mid.disk[loc as int]) == Some(fresh_node(e.kind)),
        mid == (GbiState {
            disk: pre.disk.update(loc as int, mid.disk[loc as int]),
            bits: pre.bits.update(loc as int, true),
            superblock: Superblock {
                free_blocks: (pre.superblock.free_blocks - 1) as u32,
                ..pre.superblock
            },
            dirty: true,
            ..pre
        }),
        node_at(mid, parent) == Some(v0),
        e.location == loc,
        crate::dir::append_post(mid, post, parent, v0, v1, e, Ok(())),
    ensures
        create_post(pre, post, parent, v0, v1, e.name, e.kind, Ok(loc)),
{
    let root = pre.superblock.root as int;
    let added = v1.ptrs.skip(v0.ptrs.len() as int);
    let taken = pre.bits.update(loc as int, true);
    lemma_node_blocks(pre, parent, v0);
    lemma_append_plan(v0.size, v0.ptrs.len(), mid.free());
    lemma_new_block_apart(pre.bits, v0.ptrs, v1.ptrs, loc, parent, root);
    assert(content(mid.disk, v0) == content(pre.disk, v0)) by {
        assert forall|k: int| 0 <= k < v0.ptrs.len() implies mid.disk[#[trigger] v0.ptrs[k] as int]
            == pre.disk[v0.ptrs[k] as int] by {
            assert(ptr_ok(v0.ptrs[k], parent, pre.bits, root));
        }
        lemma_content_stable(pre.disk, mid.disk, v0);
    }
    assert(node_at(post, loc as int) == Some(fresh_node(e.kind))) by {
        assert(post.disk[loc as int] == mid.disk[loc as int]);
        assert(post.bits[loc as int]);
        assert(chain_ok(fresh_node(e.kind).ptrs, loc as int, post.bits, root));
    }
}

/// Makes an empty file or directory and enters it under `name` in the
/// directory at `parent`. When it fails, nothing is allocated.
#[verifier::rlimit(40)]
pub fn create<D: BlockDevice>(
    gbi: &mut GlobalBlockInterface<D>,
    parent: u32,
    ino: &mut Inode,
    name: &[u8],
    kind: EntryKind,
) -> (r: Result<u32, Error>)
    requires
        old(gbi).wf(),
        old(ino).wf(),
        node_at(old(gbi)@, parent as int) == Some(old(ino)@),
        old(ino).kind == EntryKind::Directory,
        valid_name(name@),
    ensures
        final(gbi).wf(),
        final(ino).wf(),
        create_post(
            old(gbi)@,
            final(gbi)@,
            parent as int,
            old(ino)@,
            final(ino)@,
            name@,
            kind,
            r,
        ),
{
    let ghost pre = gbi@;
    let ghost v0 = ino@;
    proof {
        gbi.lemma_wf();
        lemma_node_blocks(pre, parent as int, v0);
    }
    let needed: u32 = if ino.size as usize % BLOCK_SIZE == 0 {
        2
    } else {
        1
    };
    if ino.size as usize + ENTRY_SIZE > MAX_FILE_BYTES || gbi.free_blocks() < needed {
        return Err(Error::NoSpace);
    }
    let mark = gbi.mark();
    let saved = *ino;
    let loc: u32 = match gbi.allocate_block() {
        Ok(b) => b,
        Err(e) => {
            return Err(e);
        },
    };
    proof {
        gbi.lemma_wf();
    }
    let child = Inode::empty(kind);
    if let Err(e) = save(gbi, loc, &child) {
        proof {
            gbi.lemma_wf();
        }
        gbi.rewind(mark);
        return Err(e);
    }
    let ghost mid = gbi@;
    proof {
        gbi.lemma_wf();
        assert forall|k: int| 0 <= k < v0.ptrs.len() implies mid.bits[#[trigger] v0.ptrs[k] as int] by {
            assert(ptr_ok(v0.ptrs[k], parent as int, pre.bits, pre.superblock.root as int));
        }
        lemma_node_stable(pre, mid, parent as int, v0);
        lemma_append_plan(v0.size, v0.ptrs.len(), mid.free());
    }
    let entry = DirEntry::new(name, kind, loc);
    match append_entry(gbi, parent, ino, &entry) {
        Ok(()) => {
            proof {
                gbi.lemma_wf();
                lemma_create_done(pre, mid, gbi@, parent as int, v0, ino@, entry@, loc);
            }
            Ok(loc)
        },
        Err(e) => {
            proof {
                gbi.lemma_wf();
            }
            gbi.rewind(mark);
            *ino = saved;
            Err(e)
        },
    }
}

/// Two records share no block.
pub open spec fn apart(a_loc: int, a: Seq<u32>, b_loc: int, b: Seq<u32>) -> bool {
    &&& a_loc != b_loc
    &&& !a.contains(b_loc as u32)
    &&& !b.contains(a_loc as u32)
    &&& forall|j: int, k: int| 0 <= j < a.len() && 0 <= k < b.len() ==> a[j] != b[k]
}

/// Whether the record `a` at block `a_loc` and the record `b` at block
/// `b_loc` share no block.
#[verifier::loop_isolation(false)]
pub fn are_apart(a_loc: u32, a: &Inode, b_loc: u32, b: &Inode) -> (r: bool)
    requires
        a.count <= MAX_PTRS,
        b.count <= MAX_PTRS,
    ensures
        r == apart(a_loc as int, a@.ptrs, b_loc as int, b@.ptrs),
{
    if a_loc == b_loc {
        return false;
    }
    let ghost pa = a@.ptrs;
    let ghost pb = b@.ptrs;
    let mut j: usize = 0;
    while j < a.count as usize
        invariant
            j <= a.count,
            forall|i: int| 0 <= i < j ==> pa[i] != b_loc,
        decreases a.count - j,
    {
        if a.ptrs[j] == b_loc {
            proof {
                assert(pa[j as int] == b_loc);
            }
            return false;
        }
        j += 1;
    }
    let mut k: usize = 0;
    while k < b.count as usize
        invariant
            k <= b.count,
            forall|i: int| 0 <= i < k ==> pb[i] != a_loc,
        decreases b.count - k,
    {
        if b.ptrs[k] == a_loc {
            proof {
                assert(pb[k as int] == a_loc);
            }
            return false;
        }
        k += 1;
    }
    let mut j: usize = 0;
    while j < a.count as usize
        invariant
            j <= a.count,
            forall|i: int, k: int| 0 <= i < j && 0 <= k < pb.len() ==> pa[i] != pb[k],
        decreases a.count - j,
    {
        let p: u32 = a.ptrs[j];
        let mut k: usize = 0;
        while k < b.count as usize
            invariant
                k <= b.count,
                p == pa[j as int],
                forall|i: int| 0 <= i < k ==> pb[i] != p,
            decreases b.count - k,
        {
            if b.ptrs[k] == p {
                proof {
                    assert(pa[j as int] == pb[k as int]);
                }
                return false;
            }
            k += 1;
        }
        j += 1;
    }
    true
}

/// What `destroy` leaves when it succeeds: the parent has lost entry `k`,
/// as `remove_entry` leaves it, and all blocks of the record at `target`
/// are free again. No block outside of the parent has changed.
pub open spec fn destroy_post(
    pre: GbiState,
    post: GbiState,
    parent: int,
    v0: InodeView,
    v1: InodeView,
    k: int,
    target: int,
    t: InodeView,
) -> bool {
    let new_count = blocks_for(v0.size - ENTRY_SIZE);
    let bits1 = bits_without(pre.bits, v0.ptrs.skip(new_count));
    let bits2 = bits_without(bits1, t.ptrs);
    &&& v1 == (InodeView {
        kind: v0.kind,
        size: (v0.size - ENTRY_SIZE) as nat,
        ptrs: v0.ptrs.take(new_count),
    })
    &&& node_at(post, parent) == Some(v1)
    &&& entries_in(post.disk, v1) == without(entries_in(pre.disk, v0), k)
    &&& post.bits == bits2.update(target, false)
    &&& post.superblock == (Superblock {
        free_blocks: (pre.superblock.free_blocks + (v0.ptrs.len() - new_count) + t.ptrs.len()
            + 1) as u32,
        ..pre.superblock
    })
    &&& post.initialized
    &&& forall|b: int|
        0 <= b < NUM_BLOCKS && b != parent && !v0.ptrs.contains(b as u32) ==> post.disk[b]
            == pre.disk[b]
}

/// A record stays sound when blocks are freed that are none of its own.
proof fn lemma_survives(pre: GbiState, post: GbiState, loc: int, v: InodeView, gone: Seq<u32>)
    requires
        node_at(pre, loc) == Some(v),
        pre.bits.len() == NUM_BLOCKS,
        post.initialized,
        post.superblock.root == pre.superblock.root,
        post.disk[loc] == pre.disk[loc],
        post.bits == bits_without(pre.bits, gone),
        !gone.contains(loc as u32),
        forall|j: int| 0 <= j < v.ptrs.len() ==> !gone.contains(#[trigger] v.ptrs[j]),
    ensures
        node_at(post, loc) == Some(v),
{
    lemma_node_blocks(pre, loc, v);
    assert forall|j: int| 0 <= j < v.ptrs.len() implies post.bits[#[trigger] v.ptrs[j] as int] by {
        assert(ptr_ok(v.ptrs[j], loc, pre.bits, pre.superblock.root as int));
        assert(!gone.contains(v.ptrs[j]));
    }
    lemma_node_stable(pre, post, loc, v);
}

/// A record apart from a chain has no block in a tail of that chain.
proof fn lemma_apart_from_tail(a_loc: int, a: Seq<u32>, n: int, b_loc: int, b: Seq<u32>)
    requires
        0 <= n <= a.len(),
        0 <= a_loc < NUM_BLOCKS,
        0 <= b_loc < NUM_BLOCKS,
        apart(a_loc, a, b_loc, b),
    ensures
        !a.skip(n).contains(b_loc as u32),
        forall|j: int| 0 <= j < b.len() ==> !a.skip(n).contains(#[trigger] b[j]),
{
    lemma_skip_contains(a, n, b_loc as u32);
    assert forall|j: int| 0 <= j < b.len() implies !a.skip(n).contains(#[trigger] b[j]) by {
        if a.skip(n).contains(b[j]) {
            let i = choose|i: int| 0 <= i < a.skip(n).len() && a.skip(n)[i] == b[j];
            assert(a[n + i] == b[j]);
        }
    }
}

/// A chain apart from a record has no block among that record's blocks.
proof fn lemma_apart_from_record(a_loc: int, a: Seq<u32>, n: int, b_loc: int, b: Seq<u32>)
    requires
        0 <= n <= a.len(),
        0 <= a_loc < NUM_BLOCKS,
        0 <= b_loc < NUM_BLOCKS,
        apart(a_loc, a, b_loc, b),
    ensures
        !b.push(b_loc as u32).contains(a_loc as u32),
        forall|j: int| 0 <= j < n ==> !b.push(b_loc as u32).contains(#[trigger] a.take(n)[j]),
{
    crate::chain::lemma_contains_push(b, b_loc as u32, a_loc as u32);
    assert forall|j: int| 0 <= j < n implies !b.push(b_loc as u32).contains(
        #[trigger] a.take(n)[j],
    ) by {
        crate::chain::lemma_contains_push(b, b_loc as u32, a[j]);
        assert(a.contains(a[j]));
        if b.contains(a[j]) {
            let i = choose|i: int| 0 <= i < b.len() && b[i] == a[j];
            assert(a[j] != b[i]);
        }
    }
}

/// Freeing the blocks of a chain and then one more block frees the chain
/// with that block pushed onto it.
proof fn lemma_without_push(bits: Seq<bool>, gone: Seq<u32>, last: u32)
    requires
        last < bits.len(),
        bits.len() == NUM_BLOCKS,
    ensures
        bits_without(bits, gone).update(last as int, false) == bits_without(bits, gone.push(last)),
{
    let left = bits_without(bits, gone).update(last as int, false);
    let right = bits_without(bits, gone.push(last));
    assert forall|i: int| 0 <= i < bits.len() implies left[i] == right[i] by {
        crate::chain::lemma_contains_push(gone, last, i as u32);
    }
    assert(left =~= right);
}

/// Takes entry `k`, which names the record at `target`, out of the
/// directory at `parent`, and then frees the blocks of that record.
#[verifier::rlimit(40)]
pub fn destroy<D: BlockDevice>(
    gbi: &mut GlobalBlockInterface<D>,
    parent: u32,
    ino: &mut Inode,
    k: u32,
    target: u32,
    t: &Inode,
) -> (r: Result<(), Error>)
    requires
        old(gbi).wf(),
        old(ino).wf(),
        t.wf(),
        node_at(old(gbi)@, parent as int) == Some(old(ino)@),
        old(ino).kind == EntryKind::Directory,
        k < old(ino).size / (ENTRY_SIZE as u32),
        node_at(old(gbi)@, target as int) == Some(t@),
        target != old(gbi)@.superblock.root,
        apart(parent as int, old(ino)@.ptrs, target as int, t@.ptrs),
    ensures
        final(gbi).wf(),
        final(ino).wf(),
        match r {
            Ok(()) => destroy_post(
                old(gbi)@,
                final(gbi)@,
                parent as int,
                old(ino)@,
                final(ino)@,
                k as int,
                target as int,
                t@,
            ),
            Err(e) => e is IoError && io_failed(old(gbi)@, final(gbi)@, old(ino)@, final(ino)@),
        },
{
    let ghost pre = gbi@;
    let ghost v0 = ino@;
    let ghost new_count = blocks_for(v0.size - ENTRY_SIZE);
    proof {
        gbi.lemma_wf();
        lemma_node_blocks(pre, parent as int, v0);
        lemma_node_blocks(pre, target as int, t@);
    }
    if let Err(e) = remove_entry(gbi, parent, ino, k) {
        return Err(e);
    }
    let ghost mid = gbi@;
    let ghost v1 = ino@;
    proof {
        gbi.lemma_wf();
        lemma_apart_from_tail(parent as int, v0.ptrs, new_count, target as int, t@.ptrs);
        lemma_survives(pre, mid, target as int, t@, v0.ptrs.skip(new_count));
        lemma_node_blocks(mid, target as int, t@);
    }
    release(gbi, t, target, 0);
    proof {
        gbi.lemma_wf();
        assert(t@.ptrs.skip(0) =~= t@.ptrs);
    }
    gbi.free_block(target);
    proof {
        gbi.lemma_wf();
        let post = gbi@;
        lemma_without_push(mid.bits, t@.ptrs, target);
        lemma_apart_from_record(parent as int, v0.ptrs, new_count, target as int, t@.ptrs);
        lemma_survives(mid, post, parent as int, v1, t@.ptrs.push(target));
    }
    Ok(())
}

/// What looking for `name` in the directory at `loc` gives: the index and
/// the entry of that name, or `None` where the directory has none. The name
/// must be able to stand in an entry, and the block must hold the sound
/// record of a directory whose entries can be read.
pub open spec fn probe_of(s: GbiState, loc: int, name: Seq<u8>) -> Result<
    Option<(int, EntryView)>,
    Error,
> {
    match name_check(name) {
        Err(e) => Err(e),
        Ok(()) => match node_at(s, loc) {
            None => Err(Error::Corrupted),
            Some(v) => if v.kind != EntryKind::Directory {
                Err(Error::NotADirectory)
            } else {
                match scan(entries_in(s.disk, v), name, 0) {
                    Err(e) => Err(e),
                    Ok(None) => Ok(None),
                    Ok(Some(k)) => Ok(Some((k, entries_in(s.disk, v)[k].unwrap()))),
                }
            },
        },
    }
}

/// Whether looking for `name` in the directory at `loc` gets as far as a
/// transfer: the name can stand in an entry, and the block lies on the
/// device behind the metadata. Only then can the transport fail it.
pub open spec fn may_probe(loc: int, name: Seq<u8>) -> bool {
    &&& name_check(name) is Ok
    &&& RESERVED_BLOCKS <= loc < NUM_BLOCKS
}

/// One step along a path: the entry named `name` in the directory at `loc`.
pub open spec fn step(s: GbiState, loc: int, name: Seq<u8>) -> Result<EntryView, Error> {
    match probe_of(s, loc, name) {
        Err(e) => Err(e),
        Ok(None) => Err(Error::NotFound),
        Ok(Some(found)) => Ok(found.1),
    }
}

/// Where `path` leads from the directory at `loc`, one component after the
/// other.
pub open spec fn walk(s: GbiState, loc: int, path: Seq<Seq<u8>>) -> Result<int, Error>
    decreases path.len(),
{
    if path.len() == 0 {
        Ok(loc)
    } else {
        match step(s, loc, path[0]) {
            Err(e) => Err(e),
            Ok(e) => walk(s, e.location as int, path.drop_first()),
        }
    }
}

/// The components of a path as sequences of bytes.
pub open spec fn names(path: Seq<&[u8]>) -> Seq<Seq<u8>> {
    Seq::new(path.len(), |i: int| path[i]@)
}

/// Loads the directory at `loc` and looks for `name` in it.
#[verifier::rlimit(40)]
pub fn probe<D: BlockDevice>(gbi: &mut GlobalBlockInterface<D>, loc: u32, name: &[u8]) -> (r: Result<
    (Inode, Option<(u32, DirEntry)>),
    Error,
>)
    requires
        old(gbi).wf(),
        old(gbi)@.initialized,
    ensures
        final(gbi).wf(),
        final(gbi)@ == old(gbi)@,
        match r {
            Ok((dir, found)) => {
                &&& dir.wf()
                &&& dir.kind == EntryKind::Directory
                &&& valid_name(name@)
                &&& node_at(old(gbi)@, loc as int) == Some(dir@)
                &&& match found {
                    Some((k, e)) => {
                        &&& probe_of(old(gbi)@, loc as int, name@) == Ok::<
                            Option<(int, EntryView)>,
                            Error,
                        >(Some((k as int, e@)))
                        &&& e.wf()
                        &&& k < dir.size / (ENTRY_SIZE as u32)
                        &&& e@.name == name@
                    },
                    None => probe_of(old(gbi)@, loc as int, name@) == Ok::<
                        Option<(int, EntryView)>,
                        Error,
                    >(None),
                }
            },
            Err(e) => if e is IoError {
                may_probe(loc as int, name@)
            } else {
                probe_of(old(gbi)@, loc as int, name@) == Err::<Option<(int, EntryView)>, Error>(e)
            },
        },
{
    if let Err(e) = check_name(name) {
        return Err(e);
    }
    let dir = match load(gbi, loc) {
        Err(e) => {
            return Err(e);
        },
        Ok(dir) => dir,
    };
    if dir.kind != EntryKind::Directory {
        return Err(Error::NotADirectory);
    }
    match find(gbi, loc, &dir, name) {
        Err(e) => Err(e),
        Ok(found) => Ok((dir, found)),
    }
}

/// Follows the first `upto` components of `path` from the directory at
/// `start`.
#[verifier::rlimit(40)]
pub fn resolve<D: BlockDevice>(
    gbi: &mut GlobalBlockInterface<D>,
    start: u32,
    path: &[&[u8]],
    upto: usize,
) -> (r: Result<u32, Error>)
    requires
        old(gbi).wf(),
        old(gbi)@.initialized,
        upto <= path@.len(),
    ensures
        final(gbi).wf(),
        final(gbi)@ == old(gbi)@,
        match r {
            Ok(loc) => walk(old(gbi)@, start as int, names(path@).take(upto as int)) == Ok::<
                int,
                Error,
            >(loc as int),
            Err(e) => if e is IoError {
                upto > 0 && may_probe(start as int, path@[0]@)
            } else {
                walk(old(gbi)@, start as int, names(path@).take(upto as int)) == Err::<int, Error>(e)
            },
        },
{
    let ghost s = gbi@;
    let ghost whole = names(path@).take(upto as int);
    let mut cur: u32 = start;
    let mut i: usize = 0;
    proof {
        assert(whole.skip(0) =~= whole);
    }
    while i < upto
        invariant
            i <= upto,
            upto <= path@.len(),
            gbi.wf(),
            gbi@ == s,
            s == old(gbi)@,
            s.initialized,
            whole == names(path@).take(upto as int),
            walk(s, start as int, whole) == walk(s, cur as int, whole.skip(i as int)),
            i == 0 ==> cur == start,
            i > 0 ==> may_probe(start as int, path@[0]@),
        decreases upto - i,
    {
        let ghost rest = whole.skip(i as int);
        proof {
            assert(rest[0] == path@[i as int]@);
            assert(rest.drop_first() =~= whole.skip(i + 1));
        }
        match probe(gbi, cur, path[i]) {
            Err(e) => {
                return Err(e);
            },
            Ok((_, None)) => {
                return Err(Error::NotFound);
            },
            Ok((_, Some((_, e)))) => {
                cur = e.location;
            },
        }
        i += 1;
    }
    proof {
        assert(whole.skip(upto as int) =~= Seq::<Seq<u8>>::empty());
    }
    Ok(cur)
}

/// Names in a directory stay unique when `create` enters a name that the
/// directory did not hold.
pub proof fn lemma_create_keeps_unique(
    pre: GbiState,
    post: GbiState,
    parent: int,
    v0: InodeView,
    v1: InodeView,
    name: Seq<u8>,
    kind: EntryKind,
    loc: u32,
)
    requires
        create_post(pre, post, parent, v0, v1, name, kind, Ok(loc)),
        unique_names(entries_in(pre.disk, v0)),
        scan(entries_in(pre.disk, v0), name, 0) == Ok::<Option<int>, Error>(None),
    ensures
        unique_names(entries_in(post.disk, v1)),
{
    lemma_push_keeps_unique(entries_in(pre.disk, v0), EntryView { name, kind, location: loc });
}

/// Names in a directory stay unique when `destroy` takes an entry out.
pub proof fn lemma_destroy_keeps_unique(
    pre: GbiState,
    post: GbiState,
    parent: int,
    v0: InodeView,
    v1: InodeView,
    k: int,
    target: int,
    t: InodeView,
)
    requires
        destroy_post(pre, post, parent, v0, v1, k, target, t),
        0 <= k < entries_in(pre.disk, v0).len(),
        unique_names(entries_in(pre.disk, v0)),
    ensures
        unique_names(entries_in(post.disk, v1)),
{
    lemma_without_keeps_unique(entries_in(pre.disk, v0), k);
}

} // verus!
