//! The numbers that fix the format of an image.
//!
//! A block of 4096 bytes holds 32768 bits of a bitmap, 32 inode records or 15 directory records.
//! Arithmetic with these numbers is written with literals, which the solver handles best.

use vstd::prelude::*;

verus! {

/// The first word of every image.
pub const MAGIC: u32 = 0x5553_4653;

/// The version of the format, the second word of every image.
pub const VERSION: u32 = 1;

/// Bytes in a block.
pub const BLOCK_SIZE: usize = 4096;

/// Bytes in an inode record.
pub const INODE_SIZE: usize = 128;

/// Bytes in a directory record.
pub const DIRENT_SIZE: usize = 264;

/// Whole directory records in a block.
pub const DIRENTS_PER_BLOCK: usize = 15;

/// Bytes of a name that a directory record holds.
pub const NAME_MAX: usize = 255;

/// Block pointers in an inode.
pub const DIRECT_PTRS: usize = 12;

/// Inodes that the inode table has room for.
pub const INODE_COUNT: u32 = 1024;

/// Blocks set aside for the journal.
pub const JOURNAL_BLOCKS: u32 = 64;

} // verus!
