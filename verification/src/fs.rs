//! The filesystem: open handles over the tree of directories, and the
//! operations that callers reach it through.

use vstd::prelude::*;
use vstd::string::StringSliceAdditionalSpecFns;
use crate::bit_array::{first_clear, lemma_first_clear};
use crate::block_device::BlockDevice;
use crate::block_interface::{GbiState, GlobalBlockInterface};
use crate::chain::{
    content, get_bytes, io_failed, lemma_node_blocks, load, node_at, put_bytes, put_post, read_len,
    read_part, slice_at, write_plan, written,
};
use crate::dir::{entries_in, lemma_scan_push, read_entry, scan, without, DirEntry, EntryView};
use crate::inode::{blocks_for, MAX_PTRS};
use crate::layout::{BLOCK_SIZE, NUM_BLOCKS, RESERVED_BLOCKS};
use crate::error::Error;
use crate::inode::{EntryKind, Inode, InodeView, ENTRY_SIZE};
use crate::layout::{patch, same_bytes};
use crate::tree::{
    apart, are_apart, create, create_post, destroy, destroy_post, may_probe, names, probe,
    probe_of, resolve, walk,
};
use crate::dir::valid_name;

verus! {

/// Handles that can be open at one time.
pub const MAX_OPEN: usize = 16;

/// How a file is opened.
#[derive(Clone, Copy, Debug, PartialEq, Eq, Structural)]
pub enum FileMode {
    /// For reading and writing; a file that is absent is created.
    RW,
    /// What the path names must exist; nothing is created.
    MustExist,
}

/// Where a seek counts from.
#[derive(Clone, Copy, Debug, PartialEq, Eq, Structural)]
pub enum SeekFrom {
    /// From the start of the file.
    Start(u32),
    /// From the handle's offset.
    Current(i64),
    /// From the end of the file.
    End(i64),
}

/// Names one open handle.
#[derive(Clone, Copy, Debug, PartialEq, Eq, Structural)]
pub struct FileDescriptor(pub u32);

/// Blocks on the device, and how many of them are free.
#[derive(Clone, Copy, Debug, PartialEq, Eq, Structural)]
pub struct Stats {
    pub total_blocks: u32,
    pub free_blocks: u32,
}

/// A directory to list, by the block of its record.
#[derive(Clone, Copy, Debug, PartialEq, Eq, Structural)]
pub struct DirectoryView {
    pub location: u32,
}

/// What the filesystem keeps for one open handle.
#[derive(Clone, Copy, Debug, PartialEq, Eq, Structural)]
pub struct Handle {
    /// Block of the record that the handle is open on.
    pub location: u32,
    /// Whether that is a file or a directory.
    pub kind: EntryKind,
    /// Where the next read or write starts.
    pub offset: u32,
    /// How the handle was opened.
    pub mode: FileMode,
    /// Whether the handle has written since it was opened or last flushed.
    pub dirty: bool,
}

/// The state of a filesystem as the contracts see it.
pub struct FsState {
    /// The block interface below.
    pub gbi: GbiState,
    /// The table of handles; a descriptor is an index into it.
    pub handles: Seq<Option<Handle>>,
}

impl FsState {
    /// The block interface holds together, and handles are open only on an
    /// initialised device.
    pub open spec fn wf(self) -> bool {
        &&& self.gbi.wf()
        &&& self.handles.len() == MAX_OPEN
        &&& !self.gbi.initialized ==> forall|i: int| 0 <= i < MAX_OPEN ==> self.handles[i] is None
    }

    /// The handle that `fd` names, if it names one.
    pub open spec fn handle(self, fd: FileDescriptor) -> Option<Handle> {
        if fd.0 < MAX_OPEN {
            self.handles[fd.0 as int]
        } else {
            None
        }
    }

    /// This state with `h` as the handle that `fd` names.
    pub open spec fn with_handle(self, fd: FileDescriptor, h: Option<Handle>) -> FsState {
        FsState { handles: self.handles.update(fd.0 as int, h), ..self }
    }

    /// Whether an operation on the file that `fd` names gets as far as a
    /// transfer: the device is initialised, `fd` names a handle on a file,
    /// and the block of its record lies on the device behind the metadata.
    /// Only then can the transport fail the operation.
    pub open spec fn may_transfer(self, fd: FileDescriptor) -> bool {
        &&& self.gbi.initialized
        &&& match self.handle(fd) {
            Some(h) => h.kind == EntryKind::File && RESERVED_BLOCKS <= h.location < NUM_BLOCKS,
            None => false,
        }
    }

    /// The handle that `fd` names and the sound record of the file that it
    /// is open on, or the error that an operation on a file fails with.
    pub open spec fn file_of(self, fd: FileDescriptor) -> Result<(Handle, InodeView), Error> {
        if !self.gbi.initialized {
            Err(Error::Uninitialized)
        } else {
            match self.handle(fd) {
                None => Err(Error::InvalidDescriptor),
                Some(h) => if h.kind == EntryKind::Directory {
                    Err(Error::IsADirectory)
                } else {
                    match node_at(self.gbi, h.location as int) {
                        None => Err(Error::Corrupted),
                        Some(v) => if v.kind != EntryKind::File {
                            Err(Error::Corrupted)
                        } else {
                            Ok((h, v))
                        },
                    }
                },
            }
        }
    }
}

/// Slot `i` is the lowest free slot of the table.
pub open spec fn is_first_free(handles: Seq<Option<Handle>>, i: int) -> bool {
    &&& 0 <= i < handles.len()
    &&& handles[i] is None
    &&& forall|j: int| 0 <= j < i ==> handles[j] is Some
}

/// No slot of the table is free.
pub open spec fn table_full(handles: Seq<Option<Handle>>) -> bool {
    forall|j: int| 0 <= j < handles.len() ==> handles[j] is Some
}

/// What `FileMode::parse` makes of a token.
pub open spec fn mode_of(token: Seq<u8>) -> Option<FileMode> {
    if token == seq![82u8, 87u8] {
        Some(FileMode::RW)
    } else if token == seq![77u8, 117u8, 115u8, 116u8, 69u8, 120u8, 105u8, 115u8, 116u8] {
        Some(FileMode::MustExist)
    } else {
        None
    }
}

impl FileMode {
    /// Reads a mode from its token: `RW` or `MustExist`.
    pub fn parse(token: &[u8]) -> (r: Option<FileMode>)
        ensures
            r == mode_of(token@),
    {
        let rw: [u8; 2] = [82, 87];
        let must: [u8; 9] = [77, 117, 115, 116, 69, 120, 105, 115, 116];
        if same_bytes(token, &rw) {
            proof {
                assert(token@ =~= seq![82u8, 87u8]);
            }
            Some(FileMode::RW)
        } else if same_bytes(token, &must) {
            proof {
                assert(token@ =~= seq![77u8, 117u8, 115u8, 116u8, 69u8, 120u8, 105u8, 115u8, 116u8]);
            }
            Some(FileMode::MustExist)
        } else {
            proof {
                assert(rw@ =~= seq![82u8, 87u8]);
                assert(must@ =~= seq![77u8, 117u8, 115u8, 116u8, 69u8, 120u8, 105u8, 115u8, 116u8]);
            }
            None
        }
    }
}

impl core::str::FromStr for FileMode {
    type Err = Error;

    /// Reads a mode from its token; any other text is refused as
    /// `OutOfRange`.
    fn from_str(s: &str) -> (r: Result<FileMode, Error>)
        ensures
            r == match mode_of(s.spec_bytes()) {
                Some(mode) => Ok::<FileMode, Error>(mode),
                None => Err::<FileMode, Error>(Error::OutOfRange),
            },
    {
        match FileMode::parse(s.as_bytes()) {
            Some(mode) => Ok(mode),
            None => Err(Error::OutOfRange),
        }
    }
}

impl From<u32> for FileDescriptor {
    fn from(raw: u32) -> (fd: FileDescriptor) {
        FileDescriptor(raw)
    }
}

impl vstd::std_specs::convert::FromSpecImpl<u32> for FileDescriptor {
    open spec fn obeys_from_spec() -> bool {
        true
    }

    open spec fn from_spec(raw: u32) -> FileDescriptor {
        FileDescriptor(raw)
    }
}

/// Where the directory that holds the last component of `path` lies, seen
/// from the directory at `start`, and what that directory holds under the
/// last component.
pub open spec fn locate_of(s: GbiState, start: int, path: Seq<Seq<u8>>) -> Result<
    (int, Option<(int, EntryView)>),
    Error,
> {
    match walk(s, start, path.drop_last()) {
        Err(e) => Err(e),
        Ok(parent) => match probe_of(s, parent, path.last()) {
            Err(e) => Err(e),
            Ok(found) => Ok((parent, found)),
        },
    }
}

/// The sound record that `entry` names; it must be of the kind that the
/// entry says.
pub open spec fn target_of(s: GbiState, entry: EntryView) -> Result<InodeView, Error> {
    match node_at(s, entry.location as int) {
        None => Err(Error::Corrupted),
        Some(t) => if t.kind != entry.kind {
            Err(Error::Corrupted)
        } else {
            Ok(t)
        },
    }
}

/// Whether the record `t` that `entry` names in the directory `v0` at
/// `parent` can be removed as a `want`: it must be of that kind, a directory
/// must be empty, and the record must be neither the root nor share a block
/// with the directory.
pub open spec fn removable(
    s: GbiState,
    parent: int,
    v0: InodeView,
    entry: EntryView,
    t: InodeView,
    want: EntryKind,
) -> Result<(), Error> {
    if t.kind != want {
        Err(
            if want == EntryKind::Directory {
                Error::NotADirectory
            } else {
                Error::IsADirectory
            },
        )
    } else if want == EntryKind::Directory && t.size != 0 {
        Err(Error::DirectoryNotEmpty)
    } else if entry.location == s.superblock.root || !apart(
        parent,
        v0.ptrs,
        entry.location as int,
        t.ptrs,
    ) {
        Err(Error::Corrupted)
    } else {
        Ok(())
    }
}

/// What a failure of the transport leaves of the block interface when the
/// operation works on the directory at `dir`: the bitmap and the free count
/// are as before, and no block has changed that was in use and is not part
/// of that directory.
pub open spec fn io_failed_at(pre: GbiState, post: GbiState, dir: Result<int, Error>) -> bool {
    match dir {
        Ok(loc) => match node_at(pre, loc) {
            Some(v0) => io_failed(pre, post, v0, v0),
            None => post == pre,
        },
        Err(_) => post == pre,
    }
}

/// The handles without those that are open on the record at `loc`.
pub open spec fn closed_on(handles: Seq<Option<Handle>>, loc: u32) -> Seq<Option<Handle>> {
    Seq::new(
        handles.len(),
        |i: int|
            match handles[i] {
                Some(h) => if h.location == loc {
                    None
                } else {
                    Some(h)
                },
                None => None,
            },
    )
}

/// Whether loading the record at `loc` gets as far as a transfer: the
/// device is initialised and the block lies on it behind the metadata. Only
/// then can the transport fail the load.
pub open spec fn may_load(s: GbiState, loc: int) -> bool {
    &&& s.initialized
    &&& RESERVED_BLOCKS <= loc < NUM_BLOCKS
}

/// The sound record of the directory at `loc`, or the error that listing it
/// fails with.
pub open spec fn dir_of(s: GbiState, loc: int) -> Result<InodeView, Error> {
    if !s.initialized {
        Err(Error::Uninitialized)
    } else {
        match node_at(s, loc) {
            None => Err(Error::Corrupted),
            Some(v) => if v.kind != EntryKind::Directory {
                Err(Error::NotADirectory)
            } else {
                Ok(v)
            },
        }
    }
}

/// What `mkdir` leaves. It fails on an uninitialised device, on a descriptor
/// that names no handle, on a name that cannot stand in an entry, on a
/// handle that is not open on a sound directory, on a name that is taken,
/// and without room; then nothing changes. Otherwise a new empty directory
/// is entered under `name`, as `create_post` says. The transport can fail
/// the operation only once the name has been accepted and the directory's
/// record is to be loaded.
pub open spec fn mkdir_post(
    pre: FsState,
    post: FsState,
    dir: FileDescriptor,
    name: Seq<u8>,
    r: Result<(), Error>,
) -> bool {
    if !pre.gbi.initialized {
        r == Err::<(), Error>(Error::Uninitialized) && post == pre
    } else {
        match pre.handle(dir) {
            None => r == Err::<(), Error>(Error::InvalidDescriptor) && post == pre,
            Some(h) => if r matches Err(Error::IoError(_)) {
                &&& may_probe(h.location as int, name)
                &&& post.handles == pre.handles
                &&& io_failed_at(pre.gbi, post.gbi, Ok(h.location as int))
            } else {
                match probe_of(pre.gbi, h.location as int, name) {
                    Err(e) => r == Err::<(), Error>(e) && post == pre,
                    Ok(Some(_)) => r == Err::<(), Error>(Error::AlreadyExists) && post == pre,
                    Ok(None) => {
                        let v0 = node_at(pre.gbi, h.location as int).unwrap();
                        let loc = first_clear(pre.gbi.bits) as u32;
                        &&& post.handles == pre.handles
                        &&& match r {
                            Ok(()) => {
                                &&& node_at(post.gbi, h.location as int) is Some
                                &&& create_post(
                                    pre.gbi,
                                    post.gbi,
                                    h.location as int,
                                    v0,
                                    node_at(post.gbi, h.location as int).unwrap(),
                                    name,
                                    EntryKind::Directory,
                                    Ok(loc),
                                )
                            },
                            Err(e) => create_post(
                                pre.gbi,
                                post.gbi,
                                h.location as int,
                                v0,
                                v0,
                                name,
                                EntryKind::Directory,
                                Err(e),
                            ),
                        }
                    },
                }
            },
        }
    }
}

/// What `open` leaves. It fails on an uninitialised device, on a descriptor
/// that names no handle, and with `NoSpace` when no slot is free; then
/// nothing changes. An empty path opens what `dir` is open on once more.
/// Otherwise the path is followed from `dir`. What the last component names
/// is opened, but a directory not for `RW`. Where it names nothing, `RW`
/// creates an empty file there, as `create_post` says, and `MustExist`
/// fails with `NotFound`. The new handle takes the lowest free slot. The
/// transport can fail the operation only once the first component has been
/// accepted as a name and the directory's record is to be loaded.
pub open spec fn open_post(
    pre: FsState,
    post: FsState,
    dir: FileDescriptor,
    path: Seq<Seq<u8>>,
    mode: FileMode,
    r: Result<FileDescriptor, Error>,
) -> bool {
    if !pre.gbi.initialized {
        r == Err::<FileDescriptor, Error>(Error::Uninitialized) && post == pre
    } else {
        match pre.handle(dir) {
            None => r == Err::<FileDescriptor, Error>(Error::InvalidDescriptor) && post == pre,
            Some(h) => if table_full(pre.handles) {
                r == Err::<FileDescriptor, Error>(Error::NoSpace) && post == pre
            } else if r matches Err(Error::IoError(_)) {
                &&& post.handles == pre.handles
                &&& path.len() > 0
                &&& may_probe(h.location as int, path[0])
                &&& io_failed_at(pre.gbi, post.gbi, walk(pre.gbi, h.location as int, path.drop_last()))
            } else if path.len() == 0 {
                opened(pre, post, h.location, h.kind, mode, false, r) && post.gbi == pre.gbi
            } else {
                match locate_of(pre.gbi, h.location as int, path) {
                    Err(e) => r == Err::<FileDescriptor, Error>(e) && post == pre,
                    Ok((parent, Some((k, entry)))) => match target_of(pre.gbi, entry) {
                        Err(e) => r == Err::<FileDescriptor, Error>(e) && post == pre,
                        Ok(t) => if t.kind == EntryKind::Directory && mode == FileMode::RW {
                            r == Err::<FileDescriptor, Error>(Error::IsADirectory) && post == pre
                        } else {
                            opened(pre, post, entry.location, t.kind, mode, false, r) && post.gbi
                                == pre.gbi
                        },
                    },
                    Ok((parent, None)) => if mode == FileMode::MustExist {
                        r == Err::<FileDescriptor, Error>(Error::NotFound) && post == pre
                    } else {
                        let v0 = node_at(pre.gbi, parent).unwrap();
                        let loc = first_clear(pre.gbi.bits) as u32;
                        match r {
                            Ok(_) => {
                                &&& opened(pre, post, loc, EntryKind::File, mode, true, r)
                                &&& node_at(post.gbi, parent) is Some
                                &&& create_post(
                                    pre.gbi,
                                    post.gbi,
                                    parent,
                                    v0,
                                    node_at(post.gbi, parent).unwrap(),
                                    path.last(),
                                    EntryKind::File,
                                    Ok(loc),
                                )
                            },
                            Err(e) => {
                                &&& post.handles == pre.handles
                                &&& create_post(
                                    pre.gbi,
                                    post.gbi,
                                    parent,
                                    v0,
                                    v0,
                                    path.last(),
                                    EntryKind::File,
                                    Err(e),
                                )
                            },
                        }
                    },
                }
            },
        }
    }
}

/// `r` is the descriptor of the lowest free slot, and the slot now holds a
/// handle at offset zero on the record at `location`.
pub open spec fn opened(
    pre: FsState,
    post: FsState,
    location: u32,
    kind: EntryKind,
    mode: FileMode,
    dirty: bool,
    r: Result<FileDescriptor, Error>,
) -> bool {
    &&& r is Ok
    &&& is_first_free(pre.handles, r->Ok_0.0 as int)
    &&& post.handles == pre.handles.update(
        r->Ok_0.0 as int,
        Some(Handle { location, kind, offset: 0, mode, dirty }),
    )
}

/// What `rmdir` and `remove` leave. They fail on an uninitialised device,
/// on a descriptor that names no handle, with `NotFound` on an empty path,
/// where the path cannot be followed or names nothing, and where what it
/// names is not `removable`; then nothing changes. Otherwise the entry and
/// the record that it names are gone, as `destroy_post` says, and the
/// handles that were open on that record are closed. The transport can fail
/// the operation only once the first component has been accepted as a name
/// and the directory's record is to be loaded.
pub open spec fn unlink_post(
    pre: FsState,
    post: FsState,
    dir: FileDescriptor,
    path: Seq<Seq<u8>>,
    want: EntryKind,
    r: Result<(), Error>,
) -> bool {
    if !pre.gbi.initialized {
        r == Err::<(), Error>(Error::Uninitialized) && post == pre
    } else {
        match pre.handle(dir) {
            None => r == Err::<(), Error>(Error::InvalidDescriptor) && post == pre,
            Some(h) => if r matches Err(Error::IoError(_)) {
                &&& post.handles == pre.handles
                &&& path.len() > 0
                &&& may_probe(h.location as int, path[0])
                &&& io_failed_at(pre.gbi, post.gbi, walk(pre.gbi, h.location as int, path.drop_last()))
            } else if path.len() == 0 {
                r == Err::<(), Error>(Error::NotFound) && post == pre
            } else {
                match locate_of(pre.gbi, h.location as int, path) {
                    Err(e) => r == Err::<(), Error>(e) && post == pre,
                    Ok((parent, None)) => r == Err::<(), Error>(Error::NotFound) && post == pre,
                    Ok((parent, Some((k, entry)))) => match target_of(pre.gbi, entry) {
                        Err(e) => r == Err::<(), Error>(e) && post == pre,
                        Ok(t) => {
                            let v0 = node_at(pre.gbi, parent).unwrap();
                            match removable(pre.gbi, parent, v0, entry, t, want) {
                                Err(e) => r == Err::<(), Error>(e) && post == pre,
                                Ok(()) => {
                                    &&& r is Ok
                                    &&& node_at(post.gbi, parent) is Some
                                    &&& destroy_post(
                                        pre.gbi,
                                        post.gbi,
                                        parent,
                                        v0,
                                        node_at(post.gbi, parent).unwrap(),
                                        k,
                                        entry.location as int,
                                        t,
                                    )
                                    &&& post.handles == closed_on(pre.handles, entry.location)
                                },
                            }
                        },
                    },
                }
            },
        }
    }
}

/// What listing one entry gives: entry `index` of the sound directory at
/// `loc`, `None` behind the last entry, and `Corrupted` for a record that
/// spells no entry. The transport can fail the listing only where the
/// directory's record is to be loaded.
pub open spec fn entry_post(s: GbiState, loc: int, index: u32, r: Result<Option<DirEntry>, Error>) -> bool {
    if r matches Err(Error::IoError(_)) {
        may_load(s, loc)
    } else {
        match dir_of(s, loc) {
        Err(e) => r == Err::<Option<DirEntry>, Error>(e),
        Ok(v) => {
            let es = entries_in(s.disk, v);
            if index >= es.len() {
                r == Ok::<Option<DirEntry>, Error>(None)
            } else {
                match es[index as int] {
                    None => r == Err::<Option<DirEntry>, Error>(Error::Corrupted),
                    Some(e) => r matches Ok(Some(d)) && d@ == e && d.wf(),
                }
            }
        },
    }
    }
}

/// Follows `path` up to its last component from the directory at `start`,
/// and looks for the last component in the directory that it reaches.
fn locate<D: BlockDevice>(gbi: &mut GlobalBlockInterface<D>, start: u32, path: &[&[u8]]) -> (r: Result<
    (u32, Inode, Option<(u32, DirEntry)>),
    Error,
>)
    requires
        old(gbi).wf(),
        old(gbi)@.initialized,
        path@.len() > 0,
    ensures
        final(gbi).wf(),
        final(gbi)@ == old(gbi)@,
        match r {
            Ok((parent, dir, found)) => {
                &&& walk(old(gbi)@, start as int, names(path@).drop_last()) == Ok::<int, Error>(
                    parent as int,
                )
                &&& dir.wf()
                &&& dir.kind == EntryKind::Directory
                &&& valid_name(names(path@).last())
                &&& node_at(old(gbi)@, parent as int) == Some(dir@)
                &&& match found {
                    Some((k, e)) => {
                        &&& locate_of(old(gbi)@, start as int, names(path@)) == Ok::<
                            (int, Option<(int, EntryView)>),
                            Error,
                        >((parent as int, Some((k as int, e@))))
                        &&& e.wf()
                        &&& k < dir.size / (ENTRY_SIZE as u32)
                    },
                    None => locate_of(old(gbi)@, start as int, names(path@)) == Ok::<
                        (int, Option<(int, EntryView)>),
                        Error,
                    >((parent as int, None)),
                }
            },
            Err(e) => if e is IoError {
                may_probe(start as int, path@[0]@)
            } else {
                locate_of(old(gbi)@, start as int, names(path@)) == Err::<
                    (int, Option<(int, EntryView)>),
                    Error,
                >(e)
            },
        },
{
    let last: usize = path.len() - 1;
    proof {
        assert(names(path@).take(last as int) =~= names(path@).drop_last());
        assert(names(path@).last() == path@[last as int]@);
    }
    let parent: u32 = match resolve(gbi, start, path, last) {
        Err(e) => {
            return Err(e);
        },
        Ok(parent) => parent,
    };
    match probe(gbi, parent, path[last]) {
        Err(e) => Err(e),
        Ok((dir, found)) => Ok((parent, dir, found)),
    }
}

/// Loads the record that the entry `e` names.
fn target<D: BlockDevice>(gbi: &mut GlobalBlockInterface<D>, e: &DirEntry) -> (r: Result<Inode, Error>)
    requires
        old(gbi).wf(),
        old(gbi)@.initialized,
    ensures
        final(gbi).wf(),
        final(gbi)@ == old(gbi)@,
        match r {
            Ok(t) => t.wf() && target_of(old(gbi)@, e@) == Ok::<InodeView, Error>(t@),
            Err(err) => if err is IoError {
                may_load(old(gbi)@, e.location as int)
            } else {
                target_of(old(gbi)@, e@) == Err::<InodeView, Error>(err)
            },
        },
{
    match load(gbi, e.location) {
        Err(err) => Err(err),
        Ok(t) => {
            if t.kind != e.kind {
                Err(Error::Corrupted)
            } else {
                Ok(t)
            }
        },
    }
}

/// Closes every handle of the table that is open on the record at `loc`.
fn close_on(handles: &mut [Option<Handle>; MAX_OPEN], loc: u32)
    ensures
        final(handles)@ == closed_on(old(handles)@, loc),
{
    let mut i: usize = 0;
    while i < MAX_OPEN
        invariant
            i <= MAX_OPEN,
            forall|j: int| 0 <= j < i ==> handles@[j] == closed_on(old(handles)@, loc)[j],
            forall|j: int| i <= j < MAX_OPEN ==> handles@[j] == old(handles)@[j],
        decreases MAX_OPEN - i,
    {
        if let Some(h) = handles[i] {
            if h.location == loc {
                handles[i] = None;
            }
        }
        i += 1;
    }
    proof {
        assert(handles@ =~= closed_on(old(handles)@, loc));
    }
}

/// Directories, files and open handles on one block interface.
pub struct FileSystem<D: BlockDevice> {
    gbi: GlobalBlockInterface<D>,
    handles: [Option<Handle>; MAX_OPEN],
}

impl<D: BlockDevice> View for FileSystem<D> {
    type V = FsState;

    closed spec fn view(&self) -> FsState {
        FsState { gbi: self.gbi@, handles: self.handles@ }
    }
}

impl<D: BlockDevice> FileSystem<D> {
    /// The block interface is in good order and the state holds together.
    pub closed spec fn wf(&self) -> bool {
        &&& self.gbi.wf()
        &&& self@.wf()
    }

    /// The block interface that the filesystem stands on.
    pub closed spec fn interface(&self) -> GlobalBlockInterface<D> {
        self.gbi
    }

    /// A well-formed filesystem has a well-formed state.
    pub proof fn lemma_wf(&self)
        requires
            self.wf(),
        ensures
            self@.wf(),
    {
    }

    /// A filesystem on `gbi` with no open handle.
    pub fn new(gbi: GlobalBlockInterface<D>) -> (fs: Self)
        requires
            gbi.wf(),
        ensures
            fs.wf(),
            fs@.gbi == gbi@,
            fs.interface() == gbi,
            forall|i: int| 0 <= i < MAX_OPEN ==> fs@.handles[i] is None,
    {
        proof {
            gbi.lemma_wf();
        }
        FileSystem { gbi, handles: [None; MAX_OPEN] }
    }

    /// Gives the block interface back; the handles are gone with the
    /// filesystem.
    pub fn into_inner(self) -> (gbi: GlobalBlockInterface<D>)
        requires
            self.wf(),
        ensures
            gbi.wf(),
            gbi@ == self@.gbi,
            gbi == self.interface(),
    {
        self.gbi
    }

    /// The handle that `fd` names.
    fn handle(&self, fd: FileDescriptor) -> (r: Option<Handle>)
        requires
            self.wf(),
        ensures
            r == self@.handle(fd),
    {
        if (fd.0 as usize) < MAX_OPEN {
            self.handles[fd.0 as usize]
        } else {
            None
        }
    }

    /// The lowest free slot of the table.
    fn free_slot(&self) -> (r: Option<usize>)
        requires
            self.wf(),
        ensures
            match r {
                Some(i) => is_first_free(self@.handles, i as int),
                None => table_full(self@.handles),
            },
    {
        let mut i: usize = 0;
        while i < MAX_OPEN
            invariant
                i <= MAX_OPEN,
                self@.handles.len() == MAX_OPEN,
                forall|j: int| 0 <= j < i ==> self@.handles[j] is Some,
            decreases MAX_OPEN - i,
        {
            if self.handles[i].is_none() {
                return Some(i);
            }
            i += 1;
        }
        None
    }

    /// Blocks on the device and blocks that are free. Before the device is
    /// initialised both are zero.
    pub fn fs_stats(&self) -> (r: Stats)
        requires
            self.wf(),
        ensures
            r == (Stats {
                total_blocks: self@.gbi.superblock.total_blocks,
                free_blocks: self@.gbi.superblock.free_blocks,
            }),
    {
        Stats { total_blocks: self.gbi.total_blocks(), free_blocks: self.gbi.free_blocks() }
    }

    /// Opens a handle on the root directory, in the lowest free slot.
    pub fn root_dir(&mut self, mode: FileMode) -> (r: Result<FileDescriptor, Error>)
        requires
            old(self).wf(),
        ensures
            final(self).wf(),
            match r {
                Ok(fd) => {
                    &&& old(self)@.gbi.initialized
                    &&& is_first_free(old(self)@.handles, fd.0 as int)
                    &&& final(self)@ == old(self)@.with_handle(
                        fd,
                        Some(
                            Handle {
                                location: old(self)@.gbi.superblock.root,
                                kind: EntryKind::Directory,
                                offset: 0,
                                mode,
                                dirty: false,
                            },
                        ),
                    )
                },
                Err(e) => {
                    &&& final(self)@ == old(self)@
                    &&& if !old(self)@.gbi.initialized {
                        e == Error::Uninitialized
                    } else {
                        e == Error::NoSpace && table_full(old(self)@.handles)
                    }
                },
            },
    {
        if !self.gbi.is_initialized() {
            return Err(Error::Uninitialized);
        }
        match self.free_slot() {
            None => Err(Error::NoSpace),
            Some(i) => {
                self.handles[i] = Some(
                    Handle {
                        location: self.gbi.root(),
                        kind: EntryKind::Directory,
                        offset: 0,
                        mode,
                        dirty: false,
                    },
                );
                Ok(FileDescriptor(i as u32))
            },
        }
    }

    /// A view for listing the directory that `fd` is open on.
    pub fn as_directory(&self, fd: FileDescriptor) -> (r: Result<DirectoryView, Error>)
        requires
            self.wf(),
        ensures
            r == match self@.handle(fd) {
                None => Err::<DirectoryView, Error>(Error::InvalidDescriptor),
                Some(h) => if h.kind == EntryKind::Directory {
                    Ok::<DirectoryView, Error>(DirectoryView { location: h.location })
                } else {
                    Err::<DirectoryView, Error>(Error::NotADirectory)
                },
            },
    {
        match self.handle(fd) {
            None => Err(Error::InvalidDescriptor),
            Some(h) => match h.kind {
                EntryKind::Directory => Ok(DirectoryView { location: h.location }),
                EntryKind::File => Err(Error::NotADirectory),
            },
        }
    }

    /// Loads the record of the file that `fd` is open on.
    fn file(&mut self, fd: FileDescriptor) -> (r: Result<(Handle, Inode), Error>)
        requires
            old(self).wf(),
        ensures
            final(self).wf(),
            final(self)@ == old(self)@,
            match r {
                Ok((h, ino)) => ino.wf() && old(self)@.file_of(fd) == Ok::<(Handle, InodeView), Error>(
                    (h, ino@),
                ),
                Err(e) => if e is IoError {
                    old(self)@.may_transfer(fd)
                } else {
                    old(self)@.file_of(fd) == Err::<(Handle, InodeView), Error>(e)
                },
            },
    {
        if !self.gbi.is_initialized() {
            return Err(Error::Uninitialized);
        }
        let h = match self.handle(fd) {
            None => {
                return Err(Error::InvalidDescriptor);
            },
            Some(h) => h,
        };
        if h.kind == EntryKind::Directory {
            return Err(Error::IsADirectory);
        }
        match load(&mut self.gbi, h.location) {
            Err(e) => Err(e),
            Ok(ino) => {
                if ino.kind != EntryKind::File {
                    Err(Error::Corrupted)
                } else {
                    Ok((h, ino))
                }
            },
        }
    }

    /// What `read` leaves: on a handle that is open on a sound file, the
    /// bytes from the handle's offset up to the end of the file are at the
    /// front of the buffer, as many as it holds, and the offset has moved
    /// behind them. A read that fails changes nothing, but that a read on
    /// which the transport fails may have filled the front of the buffer.
    /// Unless the transport fails, the read succeeds on such a handle and
    /// fails on no other; and the transport can fail it only on a handle
    /// whose record is to be loaded.
    pub open spec fn read_post(
        pre: FsState,
        post: FsState,
        fd: FileDescriptor,
        before: Seq<u8>,
        after: Seq<u8>,
        r: Result<usize, Error>,
    ) -> bool {
        if r matches Err(Error::IoError(_)) {
            &&& post == pre
            &&& pre.may_transfer(fd)
            &&& match pre.file_of(fd) {
                Ok((h, v)) => after == before || exists|p: int|
                    read_part(
                        before,
                        after,
                        content(pre.gbi.disk, v),
                        h.offset as nat,
                        p,
                        read_len(v.size, h.offset as nat, before.len()),
                    ),
                Err(_) => after == before,
            }
        } else {
            match pre.file_of(fd) {
                Err(e) => r == Err::<usize, Error>(e) && post == pre && after == before,
                Ok((h, v)) => {
                    &&& r == Ok::<usize, Error>(
                        read_len(v.size, h.offset as nat, before.len()) as usize,
                    )
                    &&& after == patch(
                        before,
                        0,
                        slice_at(
                            content(pre.gbi.disk, v),
                            h.offset as nat,
                            read_len(v.size, h.offset as nat, before.len()),
                        ),
                    )
                    &&& post == pre.with_handle(
                        fd,
                        Some(
                            Handle {
                                offset: (h.offset + read_len(
                                    v.size,
                                    h.offset as nat,
                                    before.len(),
                                )) as u32,
                                ..h
                            },
                        ),
                    )
                },
            }
        }
    }

    /// Reads from the file that `fd` is open on, from the handle's offset,
    /// into `buf`, and moves the offset behind what was read. Fewer bytes
    /// than `buf` holds are read only where the file ends.
    pub fn read(&mut self, fd: FileDescriptor, buf: &mut [u8]) -> (r: Result<usize, Error>)
        requires
            old(self).wf(),
        ensures
            final(self).wf(),
            final(buf)@.len() == old(buf)@.len(),
            Self::read_post(old(self)@, final(self)@, fd, old(buf)@, final(buf)@, r),
    {
        let (h, ino) = match self.file(fd) {
            Err(e) => {
                return Err(e);
            },
            Ok(found) => found,
        };
        match get_bytes(&mut self.gbi, h.location, &ino, h.offset, buf) {
            Err(e) => Err(e),
            Ok(n) => {
                let moved = Handle {
                    location: h.location,
                    kind: h.kind,
                    offset: if n > 0 {
                        h.offset + n as u32
                    } else {
                        h.offset
                    },
                    mode: h.mode,
                    dirty: h.dirty,
                };
                self.handles[fd.0 as usize] = Some(moved);
                Ok(n)
            },
        }
    }

    /// What `write` leaves: on a handle that is open on a sound file, the
    /// file is written as `put_post` says, from the handle's offset on. When
    /// all was written the offset has moved behind it; when blocks ran out
    /// the offset stays. Either way the handle is dirty. A write that fails
    /// for another reason leaves the handles as they were. The transport can
    /// fail the write only on a handle whose record is to be loaded.
    pub open spec fn write_post(
        pre: FsState,
        post: FsState,
        fd: FileDescriptor,
        data: Seq<u8>,
        r: Result<usize, Error>,
    ) -> bool {
        match pre.file_of(fd) {
            Err(e) => post == pre && if r matches Err(Error::IoError(_)) {
                pre.may_transfer(fd)
            } else {
                r == Err::<usize, Error>(e)
            },
            Ok((h, v0)) => {
                if r matches Err(Error::IoError(_)) {
                    &&& post.handles == pre.handles
                    &&& io_failed(pre.gbi, post.gbi, v0, v0)
                } else {
                    &&& node_at(post.gbi, h.location as int) is Some
                    &&& put_post(
                        pre.gbi,
                        post.gbi,
                        h.location as int,
                        v0,
                        node_at(post.gbi, h.location as int).unwrap(),
                        h.offset as nat,
                        data,
                        r,
                    )
                    &&& post.handles == pre.handles.update(
                        fd.0 as int,
                        Some(
                            Handle {
                                offset: if r is Ok {
                                    (h.offset + data.len()) as u32
                                } else {
                                    h.offset
                                },
                                dirty: true,
                                ..h
                            },
                        ),
                    )
                }
            },
        }
    }

    /// Writes `buf` to the file that `fd` is open on, from the handle's
    /// offset on, and moves the offset behind it. The file grows as needed;
    /// when blocks run out, what fits is written and `NoSpace` is returned.
    #[verifier::rlimit(40)]
    pub fn write(&mut self, fd: FileDescriptor, buf: &[u8]) -> (r: Result<usize, Error>)
        requires
            old(self).wf(),
        ensures
            final(self).wf(),
            Self::write_post(old(self)@, final(self)@, fd, buf@, r),
    {
        let (h, ino) = match self.file(fd) {
            Err(e) => {
                return Err(e);
            },
            Ok(found) => found,
        };
        let mut ino = ino;
        let ghost v0 = ino@;
        let r = put_bytes(&mut self.gbi, h.location, &mut ino, h.offset, buf);
        proof {
            reveal(put_post);
            self.gbi.lemma_wf();
            lemma_node_blocks(old(self)@.gbi, h.location as int, v0);
        }
        match r {
            Err(Error::IoError(e)) => Err(Error::IoError(e)),
            Ok(n) => {
                proof {
                    if buf@.len() > 0 {
                        crate::chain::lemma_complete_fits(
                            v0.size,
                            v0.ptrs.len(),
                            old(self)@.gbi.free(),
                            h.offset as nat,
                            buf@.len(),
                        );
                    }
                }
                self.handles[fd.0 as usize] = Some(
                    Handle {
                        location: h.location,
                        kind: h.kind,
                        offset: if n > 0 {
                            h.offset + n as u32
                        } else {
                            h.offset
                        },
                        mode: h.mode,
                        dirty: true,
                    },
                );
                Ok(n)
            },
            Err(e) => {
                self.handles[fd.0 as usize] = Some(
                    Handle {
                        location: h.location,
                        kind: h.kind,
                        offset: h.offset,
                        mode: h.mode,
                        dirty: true,
                    },
                );
                Err(e)
            },
        }
    }

    /// Where a seek leads, if it leads to an offset that a handle can hold.
    pub open spec fn seek_target(size: nat, offset: u32, from: SeekFrom) -> Option<u32> {
        let target: int = match from {
            SeekFrom::Start(n) => n as int,
            SeekFrom::Current(d) => offset + d,
            SeekFrom::End(d) => size + d,
        };
        if 0 <= target <= u32::MAX {
            Some(target as u32)
        } else {
            None
        }
    }

    /// What `seek` leaves: on a handle that is open on a sound file, the
    /// offset is where the seek leads; a seek that leads nowhere fails with
    /// `OutOfRange`. A seek that fails changes nothing. The transport can
    /// fail the seek only on a handle whose record is to be loaded.
    pub open spec fn seek_post(
        pre: FsState,
        post: FsState,
        fd: FileDescriptor,
        from: SeekFrom,
        r: Result<(), Error>,
    ) -> bool {
        match pre.file_of(fd) {
            Err(e) => post == pre && if r matches Err(Error::IoError(_)) {
                pre.may_transfer(fd)
            } else {
                r == Err::<(), Error>(e)
            },
            Ok((h, v)) => match r {
                Err(e) => {
                    &&& post == pre
                    &&& e is IoError || (e == Error::OutOfRange && Self::seek_target(
                        v.size,
                        h.offset,
                        from,
                    ) is None)
                },
                Ok(()) => {
                    &&& Self::seek_target(v.size, h.offset, from) is Some
                    &&& post == pre.with_handle(
                        fd,
                        Some(
                            Handle {
                                offset: Self::seek_target(v.size, h.offset, from).unwrap(),
                                ..h
                            },
                        ),
                    )
                },
            },
        }
    }

    /// Sets the offset of the handle. The offset may lie behind the end of
    /// the file: a write there fills what lies between with zeroes.
    pub fn seek(&mut self, fd: FileDescriptor, from: SeekFrom) -> (r: Result<(), Error>)
        requires
            old(self).wf(),
        ensures
            final(self).wf(),
            Self::seek_post(old(self)@, final(self)@, fd, from, r),
    {
        let (h, ino) = match self.file(fd) {
            Err(e) => {
                return Err(e);
            },
            Ok(found) => found,
        };
        let target: i128 = match from {
            SeekFrom::Start(n) => n as i128,
            SeekFrom::Current(d) => h.offset as i128 + d as i128,
            SeekFrom::End(d) => ino.size as i128 + d as i128,
        };
        if target < 0 || target > u32::MAX as i128 {
            return Err(Error::OutOfRange);
        }
        self.handles[fd.0 as usize] = Some(
            Handle {
                location: h.location,
                kind: h.kind,
                offset: target as u32,
                mode: h.mode,
                dirty: h.dirty,
            },
        );
        Ok(())
    }

    /// Closes the handle. A dirty handle has bitmap and superblock written
    /// to the device first; if that fails the handle stays open.
    pub fn close(&mut self, fd: FileDescriptor) -> (r: Result<(), Error>)
        requires
            old(self).wf(),
        ensures
            final(self).wf(),
            match old(self)@.handle(fd) {
                None => r == Err::<(), Error>(Error::InvalidDescriptor) && final(self)@ == old(self)@,
                Some(h) => match r {
                    Ok(()) => {
                        &&& final(self)@.handles == old(self)@.handles.update(fd.0 as int, None)
                        &&& Self::flushed(old(self)@.gbi, final(self)@.gbi, h.dirty)
                    },
                    Err(e) => {
                        &&& e is IoError
                        &&& h.dirty
                        &&& final(self)@.handles == old(self)@.handles
                        &&& Self::flush_failed(old(self)@.gbi, final(self)@.gbi)
                    },
                },
            },
    {
        let h = match self.handle(fd) {
            None => {
                return Err(Error::InvalidDescriptor);
            },
            Some(h) => h,
        };
        proof {
            self.gbi.lemma_wf();
        }
        if h.dirty {
            if let Err(e) = self.gbi.flush() {
                proof {
                    self.gbi.lemma_wf();
                }
                return Err(e);
            }
        }
        proof {
            self.gbi.lemma_wf();
        }
        self.handles[fd.0 as usize] = None;
        Ok(())
    }

    /// What a flush of the block interface leaves when it succeeds, or when
    /// it was not `needed`: bitmap and superblock in memory are as before;
    /// after a flush they are on the device and the interface is clean; no
    /// block behind the metadata has changed.
    pub open spec fn flushed(pre: GbiState, post: GbiState, needed: bool) -> bool {
        if needed && pre.dirty {
            &&& post == (GbiState { disk: post.disk, dirty: false, ..pre })
            &&& post.persisted()
            &&& forall|b: int|
                crate::layout::RESERVED_BLOCKS <= b < crate::layout::NUM_BLOCKS ==> post.disk[b]
                    == pre.disk[b]
        } else {
            post == pre
        }
    }

    /// What a flush of the block interface leaves when the transport fails:
    /// bitmap and superblock in memory are as before and still dirty, and no
    /// block behind the metadata has changed.
    pub open spec fn flush_failed(pre: GbiState, post: GbiState) -> bool {
        &&& post == (GbiState { disk: post.disk, ..pre })
        &&& pre.dirty
        &&& forall|b: int|
            crate::layout::RESERVED_BLOCKS <= b < crate::layout::NUM_BLOCKS ==> post.disk[b]
                == pre.disk[b]
    }

    /// Writes bitmap and superblock to the device if they are dirty, and
    /// marks every handle as clean. If the transport fails, the handles stay
    /// as they are.
    pub fn flush(&mut self) -> (r: Result<(), Error>)
        requires
            old(self).wf(),
        ensures
            final(self).wf(),
            match r {
                Ok(()) => {
                    &&& old(self)@.gbi.initialized
                    &&& Self::flushed(old(self)@.gbi, final(self)@.gbi, true)
                    &&& final(self)@.handles == all_clean(old(self)@.handles)
                },
                Err(e) => {
                    &&& final(self)@.handles == old(self)@.handles
                    &&& if !old(self)@.gbi.initialized {
                        e == Error::Uninitialized && final(self)@ == old(self)@
                    } else {
                        e is IoError && Self::flush_failed(old(self)@.gbi, final(self)@.gbi)
                    }
                },
            },
    {
        proof {
            self.gbi.lemma_wf();
        }
        if let Err(e) = self.gbi.flush() {
            proof {
                self.gbi.lemma_wf();
            }
            return Err(e);
        }
        proof {
            self.gbi.lemma_wf();
        }
        mark_clean(&mut self.handles);
        Ok(())
    }

    /// Makes an empty directory under `name` in the directory that `dir` is
    /// open on.
    #[verifier::rlimit(40)]
    pub fn mkdir(&mut self, dir: FileDescriptor, name: &[u8]) -> (r: Result<(), Error>)
        requires
            old(self).wf(),
        ensures
            final(self).wf(),
            mkdir_post(old(self)@, final(self)@, dir, name@, r),
    {
        if !self.gbi.is_initialized() {
            return Err(Error::Uninitialized);
        }
        let h = match self.handle(dir) {
            None => {
                return Err(Error::InvalidDescriptor);
            },
            Some(h) => h,
        };
        proof {
            self.gbi.lemma_wf();
        }
        let (found_dir, found) = match probe(&mut self.gbi, h.location, name) {
            Err(e) => {
                return Err(e);
            },
            Ok(found) => found,
        };
        if found.is_some() {
            return Err(Error::AlreadyExists);
        }
        let mut ino = found_dir;
        let r = create(&mut self.gbi, h.location, &mut ino, name, EntryKind::Directory);
        proof {
            self.gbi.lemma_wf();
            if let Ok(loc) = r {
                lemma_first_clear(old(self)@.gbi.bits, loc as int);
            }
        }
        match r {
            Ok(_) => Ok(()),
            Err(e) => Err(e),
        }
    }

    /// Opens what `path` names, seen from the directory that `dir` is open
    /// on, and creates it as an empty file where `mode` allows.
    #[verifier::rlimit(40)]
    pub fn open(&mut self, dir: FileDescriptor, path: &[&[u8]], mode: FileMode) -> (r: Result<
        FileDescriptor,
        Error,
    >)
        requires
            old(self).wf(),
        ensures
            final(self).wf(),
            open_post(old(self)@, final(self)@, dir, names(path@), mode, r),
    {
        if !self.gbi.is_initialized() {
            return Err(Error::Uninitialized);
        }
        let h = match self.handle(dir) {
            None => {
                return Err(Error::InvalidDescriptor);
            },
            Some(h) => h,
        };
        let slot: usize = match self.free_slot() {
            None => {
                return Err(Error::NoSpace);
            },
            Some(slot) => slot,
        };
        proof {
            self.gbi.lemma_wf();
            assert(!table_full(self@.handles)) by {
                assert(self@.handles[slot as int] is None);
            }
        }
        if path.len() == 0 {
            self.handles[slot] = Some(
                Handle { location: h.location, kind: h.kind, offset: 0, mode, dirty: false },
            );
            return Ok(FileDescriptor(slot as u32));
        }
        let (parent, found_dir, found) = match locate(&mut self.gbi, h.location, path) {
            Err(e) => {
                return Err(e);
            },
            Ok(found) => found,
        };
        match found {
            Some((_, e)) => {
                let t = match target(&mut self.gbi, &e) {
                    Err(err) => {
                        return Err(err);
                    },
                    Ok(t) => t,
                };
                if t.kind == EntryKind::Directory && mode == FileMode::RW {
                    return Err(Error::IsADirectory);
                }
                self.handles[slot] = Some(
                    Handle { location: e.location, kind: t.kind, offset: 0, mode, dirty: false },
                );
                Ok(FileDescriptor(slot as u32))
            },
            None => {
                if mode == FileMode::MustExist {
                    return Err(Error::NotFound);
                }
                let mut ino = found_dir;
                let last: usize = path.len() - 1;
                proof {
                    assert(names(path@).last() == path@[last as int]@);
                }
                let r = create(&mut self.gbi, parent, &mut ino, path[last], EntryKind::File);
                proof {
                    self.gbi.lemma_wf();
                    if let Ok(loc) = r {
                        lemma_first_clear(old(self)@.gbi.bits, loc as int);
                    }
                }
                match r {
                    Err(err) => Err(err),
                    Ok(loc) => {
                        self.handles[slot] = Some(
                            Handle {
                                location: loc,
                                kind: EntryKind::File,
                                offset: 0,
                                mode,
                                dirty: true,
                            },
                        );
                        Ok(FileDescriptor(slot as u32))
                    },
                }
            },
        }
    }

    /// Removes what `path` names if it is a `want` that can be removed.
    #[verifier::rlimit(40)]
    fn unlink(&mut self, dir: FileDescriptor, path: &[&[u8]], want: EntryKind) -> (r: Result<
        (),
        Error,
    >)
        requires
            old(self).wf(),
        ensures
            final(self).wf(),
            unlink_post(old(self)@, final(self)@, dir, names(path@), want, r),
    {
        if !self.gbi.is_initialized() {
            return Err(Error::Uninitialized);
        }
        let h = match self.handle(dir) {
            None => {
                return Err(Error::InvalidDescriptor);
            },
            Some(h) => h,
        };
        if path.len() == 0 {
            return Err(Error::NotFound);
        }
        proof {
            self.gbi.lemma_wf();
        }
        let (parent, found_dir, found) = match locate(&mut self.gbi, h.location, path) {
            Err(e) => {
                return Err(e);
            },
            Ok(found) => found,
        };
        let (k, e) = match found {
            None => {
                return Err(Error::NotFound);
            },
            Some(found) => found,
        };
        let t = match target(&mut self.gbi, &e) {
            Err(err) => {
                return Err(err);
            },
            Ok(t) => t,
        };
        if t.kind != want {
            return Err(
                match want {
                    EntryKind::Directory => Error::NotADirectory,
                    EntryKind::File => Error::IsADirectory,
                },
            );
        }
        if want == EntryKind::Directory && t.size != 0 {
            return Err(Error::DirectoryNotEmpty);
        }
        if e.location == self.gbi.root() || !are_apart(parent, &found_dir, e.location, &t) {
            return Err(Error::Corrupted);
        }
        let mut ino = found_dir;
        let r = destroy(&mut self.gbi, parent, &mut ino, k, e.location, &t);
        proof {
            self.gbi.lemma_wf();
        }
        match r {
            Err(err) => Err(err),
            Ok(()) => {
                close_on(&mut self.handles, e.location);
                Ok(())
            },
        }
    }

    /// Removes the empty directory that `path` names, seen from the
    /// directory that `dir` is open on, and frees its blocks.
    pub fn rmdir(&mut self, dir: FileDescriptor, path: &[&[u8]]) -> (r: Result<(), Error>)
        requires
            old(self).wf(),
        ensures
            final(self).wf(),
            unlink_post(old(self)@, final(self)@, dir, names(path@), EntryKind::Directory, r),
    {
        self.unlink(dir, path, EntryKind::Directory)
    }

    /// Removes the file that `path` names, seen from the directory that
    /// `dir` is open on, and frees its blocks.
    pub fn remove(&mut self, dir: FileDescriptor, path: &[&[u8]]) -> (r: Result<(), Error>)
        requires
            old(self).wf(),
        ensures
            final(self).wf(),
            unlink_post(old(self)@, final(self)@, dir, names(path@), EntryKind::File, r),
    {
        self.unlink(dir, path, EntryKind::File)
    }

    /// How many entries the directory of `view` has.
    pub fn entry_count(&mut self, view: &DirectoryView) -> (r: Result<u32, Error>)
        requires
            old(self).wf(),
        ensures
            final(self).wf(),
            final(self)@ == old(self)@,
            if r matches Err(Error::IoError(_)) {
                may_load(old(self)@.gbi, view.location as int)
            } else {
                match dir_of(old(self)@.gbi, view.location as int) {
                    Err(e) => r == Err::<u32, Error>(e),
                    Ok(v) => r == Ok::<u32, Error>(entries_in(old(self)@.gbi.disk, v).len() as u32),
                }
            },
    {
        match load(&mut self.gbi, view.location) {
            Err(e) => Err(e),
            Ok(ino) => {
                if ino.kind != EntryKind::Directory {
                    Err(Error::NotADirectory)
                } else {
                    Ok(ino.size / ENTRY_SIZE as u32)
                }
            },
        }
    }

    /// Entry `index` of the directory of `view`, or `None` behind the last
    /// one. Listing starts anew with index zero at any time.
    pub fn entry(&mut self, view: &DirectoryView, index: u32) -> (r: Result<Option<DirEntry>, Error>)
        requires
            old(self).wf(),
        ensures
            final(self).wf(),
            final(self)@ == old(self)@,
            entry_post(old(self)@.gbi, view.location as int, index, r),
    {
        let ino = match load(&mut self.gbi, view.location) {
            Err(e) => {
                return Err(e);
            },
            Ok(ino) => ino,
        };
        if ino.kind != EntryKind::Directory {
            return Err(Error::NotADirectory);
        }
        if index >= ino.size / ENTRY_SIZE as u32 {
            return Ok(None);
        }
        match read_entry(&mut self.gbi, view.location, &ino, index) {
            Err(e) => Err(e),
            Ok(e) => Ok(Some(e)),
        }
    }
}

/// The handles with none of them dirty.
pub open spec fn all_clean(handles: Seq<Option<Handle>>) -> Seq<Option<Handle>> {
    Seq::new(
        handles.len(),
        |i: int|
            match handles[i] {
                Some(h) => Some(Handle { dirty: false, ..h }),
                None => None,
            },
    )
}

/// Marks every handle of the table as clean.
fn mark_clean(handles: &mut [Option<Handle>; MAX_OPEN])
    ensures
        final(handles)@ == all_clean(old(handles)@),
{
    let mut i: usize = 0;
    while i < MAX_OPEN
        invariant
            i <= MAX_OPEN,
            forall|j: int| 0 <= j < i ==> handles@[j] == all_clean(old(handles)@)[j],
            forall|j: int| i <= j < MAX_OPEN ==> handles@[j] == old(handles)@[j],
        decreases MAX_OPEN - i,
    {
        if let Some(h) = handles[i] {
            handles[i] = Some(
                Handle {
                    location: h.location,
                    kind: h.kind,
                    offset: h.offset,
                    mode: h.mode,
                    dirty: false,
                },
            );
        }
        i += 1;
    }
    proof {
        assert(handles@ =~= all_clean(old(handles)@));
    }
}

/// What is written can be read back: after a write that wrote all of `data`
/// and a seek back to where the write began, a read into a buffer of the
/// length of `data` reads all of it and gives exactly `data`, unless the
/// transport fails.
#[verifier::rlimit(40)]
pub proof fn lemma_write_then_read<D: BlockDevice>(
    s0: FsState,
    s1: FsState,
    s2: FsState,
    s3: FsState,
    fd: FileDescriptor,
    data: Seq<u8>,
    before: Seq<u8>,
    after: Seq<u8>,
    r: Result<usize, Error>,
)
    requires
        s0.wf(),
        s0.file_of(fd) is Ok,
        data.len() <= usize::MAX,
        FileSystem::<D>::write_post(s0, s1, fd, data, Ok(data.len() as usize)),
        FileSystem::<D>::seek_post(
            s1,
            s2,
            fd,
            SeekFrom::Start(s0.file_of(fd).unwrap().0.offset),
            Ok(()),
        ),
        before.len() == data.len(),
        FileSystem::<D>::read_post(s2, s3, fd, before, after, r),
        !(r matches Err(Error::IoError(_))),
    ensures
        r == Ok::<usize, Error>(data.len() as usize),
        after == data,
{
    reveal(write_plan);
    reveal(put_post);
    let (h, v0) = s0.file_of(fd).unwrap();
    let loc = h.location as int;
    let v1 = node_at(s1.gbi, loc).unwrap();
    let plan = write_plan(v0.size, v0.ptrs.len(), s0.gbi.free(), h.offset as nat, data.len());
    assert(plan.complete);
    let h1 = s1.handle(fd).unwrap();
    assert(h1.location == h.location && h1.kind == h.kind);
    assert(s1.file_of(fd) == Ok::<(Handle, InodeView), Error>((h1, v1)));
    let h2 = s2.handle(fd).unwrap();
    assert(h2.offset == h.offset);
    assert(s2.gbi == s1.gbi);
    assert(s2.file_of(fd) == Ok::<(Handle, InodeView), Error>((h2, v1)));
    let bytes = content(s1.gbi.disk, v1);
    let n = read_len(v1.size, h.offset as nat, before.len());
    assert(n == data.len());
    assert(after =~= data);
}

/// Exhaustion: a write that needs more blocks than are free, on a file
/// whose record could hold them, fails with `NoSpace`, unless the transport
/// fails. It leaves no block free, and the file ends where its last block
/// ends and holds the written content up to there.
#[verifier::rlimit(40)]
pub proof fn lemma_write_exhausts<D: BlockDevice>(
    s0: FsState,
    s1: FsState,
    fd: FileDescriptor,
    data: Seq<u8>,
    r: Result<usize, Error>,
)
    requires
        s0.wf(),
        s0.file_of(fd) is Ok,
        FileSystem::<D>::write_post(s0, s1, fd, data, r),
        !(r matches Err(Error::IoError(_))),
        data.len() > 0,
        ({
            let (h, v0) = s0.file_of(fd).unwrap();
            &&& blocks_for(h.offset + data.len()) > v0.ptrs.len() + s0.gbi.free()
            &&& v0.ptrs.len() + s0.gbi.free() <= MAX_PTRS
        }),
    ensures
        r == Err::<usize, Error>(Error::NoSpace),
        s1.gbi.free() == 0,
        ({
            let (h, v0) = s0.file_of(fd).unwrap();
            let v1 = node_at(s1.gbi, h.location as int).unwrap();
            let size = (v0.ptrs.len() + s0.gbi.free()) * BLOCK_SIZE;
            &&& v1.size == size
            &&& content(s1.gbi.disk, v1) == written(content(s0.gbi.disk, v0), h.offset as nat, data).take(
                size,
            )
            &&& s1.handle(fd) == Some(Handle { dirty: true, ..h })
        }),
{
    reveal(write_plan);
    reveal(put_post);
    let (h, v0) = s0.file_of(fd).unwrap();
    lemma_node_blocks(s0.gbi, h.location as int, v0);
}

/// What a successful `mkdir` of `name` has made of the directory at `loc`:
/// it lists one entry more, that entry is found under `name`, and it names
/// the sound record of an empty directory.
pub open spec fn made(s0: FsState, s1: FsState, loc: int, name: Seq<u8>) -> bool {
    let v0 = node_at(s0.gbi, loc).unwrap();
    let v1 = node_at(s1.gbi, loc).unwrap();
    let es = entries_in(s0.gbi.disk, v0);
    let e = EntryView {
        name,
        kind: EntryKind::Directory,
        location: first_clear(s0.gbi.bits) as u32,
    };
    &&& s1.gbi.initialized
    &&& node_at(s0.gbi, loc) is Some
    &&& node_at(s1.gbi, loc) is Some
    &&& v1.kind == EntryKind::Directory
    &&& v1.size == v0.size + ENTRY_SIZE
    &&& v0.ptrs.len() == blocks_for(v0.size as int)
    &&& v1.ptrs.len() == blocks_for(v1.size as int)
    &&& entries_in(s1.gbi.disk, v1) == es.push(Some(e))
    &&& probe_of(s1.gbi, loc, name) == Ok::<Option<(int, EntryView)>, Error>(
        Some((es.len() as int, e)),
    )
    &&& node_at(s1.gbi, e.location as int) == Some(crate::tree::fresh_node(EntryKind::Directory))
    &&& s1.gbi.free() == s0.gbi.free() - 1 - (v1.ptrs.len() - v0.ptrs.len())
    &&& s0.gbi.free() >= 1 + (v1.ptrs.len() - v0.ptrs.len())
}

/// After a successful `mkdir` the new directory stands in its parent.
#[verifier::rlimit(60)]
pub proof fn lemma_after_mkdir(s0: FsState, s1: FsState, dir: FileDescriptor, name: Seq<u8>)
    requires
        s0.wf(),
        mkdir_post(s0, s1, dir, name, Ok(())),
    ensures
        s0.gbi.initialized,
        s0.handle(dir) is Some,
        s1.handles == s0.handles,
        made(s0, s1, s0.handle(dir).unwrap().location as int, name),
{
    let h = s0.handle(dir).unwrap();
    let loc = h.location as int;
    let v0 = node_at(s0.gbi, loc).unwrap();
    let v1 = node_at(s1.gbi, loc).unwrap();
    let es = entries_in(s0.gbi.disk, v0);
    let block = first_clear(s0.gbi.bits) as u32;
    let e = EntryView { name, kind: EntryKind::Directory, location: block };
    assert(probe_of(s0.gbi, loc, name) == Ok::<Option<(int, EntryView)>, Error>(None));
    assert(scan(es, name, 0) == Ok::<Option<int>, Error>(None));
    lemma_scan_push(es, e, name, 0);
    lemma_node_blocks(s0.gbi, loc, v0);
    lemma_node_blocks(s1.gbi, loc, v1);
    assert(entries_in(s1.gbi.disk, v1) == es.push(Some(e)));
    assert(es.push(Some(e))[es.len() as int] == Some(e));
}

/// Names in a directory are unique: after `mkdir` has made a directory, a
/// second `mkdir` of the same name in the same directory fails with
/// `AlreadyExists` and changes nothing, unless the transport fails.
pub proof fn lemma_mkdir_twice(
    s0: FsState,
    s1: FsState,
    s2: FsState,
    dir: FileDescriptor,
    name: Seq<u8>,
    r: Result<(), Error>,
)
    requires
        s0.wf(),
        mkdir_post(s0, s1, dir, name, Ok(())),
        mkdir_post(s1, s2, dir, name, r),
        !(r matches Err(Error::IoError(_))),
    ensures
        r == Err::<(), Error>(Error::AlreadyExists),
        s2 == s1,
{
    lemma_after_mkdir(s0, s1, dir, name);
}

/// After `mkdir` the directory lists what it listed before and, as its last
/// entry, a directory of the new name.
#[verifier::rlimit(40)]
pub proof fn lemma_mkdir_lists(
    s0: FsState,
    s1: FsState,
    dir: FileDescriptor,
    name: Seq<u8>,
)
    requires
        mkdir_post(s0, s1, dir, name, Ok(())),
    ensures
        ({
            let loc = s0.handle(dir).unwrap().location as int;
            let before = entries_in(s0.gbi.disk, node_at(s0.gbi, loc).unwrap());
            let after = entries_in(s1.gbi.disk, node_at(s1.gbi, loc).unwrap());
            &&& dir_of(s1.gbi, loc) is Ok
            &&& after.len() == before.len() + 1
            &&& after.take(before.len() as int) == before
            &&& after.last() is Some
            &&& after.last().unwrap().name == name
            &&& after.last().unwrap().kind == EntryKind::Directory
        }),
{
    let loc = s0.handle(dir).unwrap().location as int;
    let before = entries_in(s0.gbi.disk, node_at(s0.gbi, loc).unwrap());
    let after = entries_in(s1.gbi.disk, node_at(s1.gbi, loc).unwrap());
    assert(probe_of(s0.gbi, loc, name) == Ok::<Option<(int, EntryView)>, Error>(None));
    assert(after.take(before.len() as int) =~= before);
}

/// A directory that has an entry is not removed: `rmdir` fails with
/// `DirectoryNotEmpty` and changes nothing, unless the transport fails.
pub proof fn lemma_rmdir_refuses_nonempty(
    s0: FsState,
    s1: FsState,
    dir: FileDescriptor,
    path: Seq<Seq<u8>>,
    r: Result<(), Error>,
)
    requires
        s0.gbi.initialized,
        s0.handle(dir) is Some,
        path.len() > 0,
        unlink_post(s0, s1, dir, path, EntryKind::Directory, r),
        !(r matches Err(Error::IoError(_))),
        ({
            let start = s0.handle(dir).unwrap().location as int;
            &&& locate_of(s0.gbi, start, path) is Ok
            &&& locate_of(s0.gbi, start, path).unwrap().1 is Some
            &&& target_of(s0.gbi, locate_of(s0.gbi, start, path).unwrap().1.unwrap().1) is Ok
            &&& target_of(
                s0.gbi,
                locate_of(s0.gbi, start, path).unwrap().1.unwrap().1,
            ).unwrap().kind == EntryKind::Directory
            &&& target_of(s0.gbi, locate_of(s0.gbi, start, path).unwrap().1.unwrap().1).unwrap().size
                > 0
        }),
    ensures
        r == Err::<(), Error>(Error::DirectoryNotEmpty),
        s1 == s0,
{
}

/// What `mkdir` took, `rmdir` gives back: after a directory has been made
/// and removed again, as many blocks are free as before, and the parent
/// lists what it listed before.
#[verifier::rlimit(80)]
pub proof fn lemma_mkdir_rmdir_restores(
    s0: FsState,
    s1: FsState,
    s2: FsState,
    dir: FileDescriptor,
    name: Seq<u8>,
)
    requires
        s0.wf(),
        mkdir_post(s0, s1, dir, name, Ok(())),
        unlink_post(s1, s2, dir, seq![name], EntryKind::Directory, Ok(())),
    ensures
        s2.gbi.free() == s0.gbi.free(),
        ({
            let loc = s0.handle(dir).unwrap().location as int;
            &&& node_at(s2.gbi, loc) is Some
            &&& entries_in(s2.gbi.disk, node_at(s2.gbi, loc).unwrap()) == entries_in(
                s0.gbi.disk,
                node_at(s0.gbi, loc).unwrap(),
            )
        }),
{
    lemma_after_mkdir(s0, s1, dir, name);
    let loc = s0.handle(dir).unwrap().location as int;
    let v0 = node_at(s0.gbi, loc).unwrap();
    let v1 = node_at(s1.gbi, loc).unwrap();
    let es = entries_in(s0.gbi.disk, v0);
    let es1 = entries_in(s1.gbi.disk, v1);
    let e = EntryView {
        name,
        kind: EntryKind::Directory,
        location: first_clear(s0.gbi.bits) as u32,
    };
    let path = seq![name];
    assert(path.drop_last() =~= Seq::<Seq<u8>>::empty());
    assert(path.last() == name);
    assert(walk(s1.gbi, loc, path.drop_last()) == Ok::<int, Error>(loc));
    assert(locate_of(s1.gbi, loc, path) == Ok::<(int, Option<(int, EntryView)>), Error>(
        (loc, Some((es.len() as int, e))),
    ));
    assert(target_of(s1.gbi, e) == Ok::<InodeView, Error>(
        crate::tree::fresh_node(EntryKind::Directory),
    ));
    assert(without(es1, es.len() as int) =~= es);
}

} // verus!
