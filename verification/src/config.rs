use vstd::prelude::*;

verus! {

/// Bytes in one block.
pub const BLOCK_SIZE: usize = 4096;

/// Block size as stored in the superblock: `1024 << LOG_BLOCK_SIZE`.
pub const LOG_BLOCK_SIZE: usize = 2;

/// Fragment size as stored in the superblock.
pub const LOG_FRAG_SIZE: usize = 2;

/// Inodes governed by one group: one bit each in a single bitmap block.
pub const INODES_PER_GRP: usize = 32768;

/// Blocks governed by one group: one bit each in a single bitmap block.
pub const BLOCKS_PER_GRP: usize = 32768;

/// The block that holds the superblock.
pub const FIRST_DATA_BLOCK: usize = 0;

/// Where the superblock starts inside its block; the bytes before it are
/// left to a boot sector.
pub const SUPER_BLOCK_OFFSET: usize = 1024;

/// Bytes of an encoded superblock.
pub const SUPER_BLOCK_SIZE: usize = 1024;

/// Bytes of an encoded group descriptor.
pub const GROUP_DESC_SIZE: usize = 32;

/// Bytes of the fixed head of a directory entry.
pub const DIR_ENTRY_HEAD_SIZE: usize = 8;

/// Time stamp given to a fresh image.
pub const FAKE_CREATE_TIME: usize = 1576800000;

/// Seconds between two forced checks.
pub const CHECK_INTERVAL: usize = 7776000;

/// The first inode number that is handed out.
pub const EXT2_GOOD_OLD_FIRST_INO: usize = 11;

/// Bytes of an encoded inode.
pub const EXT2_GOOD_OLD_INODE_SIZE: usize = 128;

/// The inode of the root directory.
pub const EXT2_ROOT_INO: usize = 2;

/// Inodes stored in one block of an inode table.
pub const INODES_PER_BLOCK: usize = 32;

/// Blocks at the head of every group that hold its two bitmaps and its
/// inode table.
pub const RESERVED_BLOCKS_PER_GRP: usize = 1026;

/// The volume id that a new file system gets.
pub const FAKE_UUID: u128 = 114514;

/// The journal id that a new file system gets.
pub const FAKE_JOURNAL_UUID: u128 = 996;

/// Longest name a directory entry can carry.
pub const MAX_NAME_LEN: usize = 255;

} // verus!
