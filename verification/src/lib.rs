//! A block-storage engine: a free-space bitmap, a byte-addressed adapter over a
//! sector device, a block interface with allocation and mount, and a small
//! filesystem of directories, files and open handles on top of it.
//!
//! On the device, block 0 holds the superblock and block 1 the bitmap. Every
//! file and every directory has one block for its record: its kind, its
//! length, and the blocks that hold its content, in order. The content of a
//! directory is a list of entries of 32 bytes, each with a name, a kind and
//! the block of the record that it names. The length of a file lives in its
//! record and is written with every write; what a handle leaves to `close`
//! and `flush` is the bitmap and the free count.
//!
//! Nothing read from the device is believed: a record is held against the
//! bitmap when it is loaded, and what does not hold together is refused as
//! `Corrupted`. The contracts say what each operation returns and leaves
//! behind unless the transport fails, and what it leaves behind when it
//! does.

pub mod layout;
pub mod error;
pub mod bit_array;
pub mod block_device;
pub mod sector;
pub mod inode;
pub mod block_interface;
pub mod chain;
pub mod dir;
pub mod tree;
pub mod fs;
pub mod props;
pub mod uart;
pub mod shell;
