//! An ext2 file system engine over a block device, with a write-back block
//! cache, proved against models of the disk and of its structures.
use vstd::prelude::*;

pub mod config;
pub mod path;
pub mod codec;
pub mod block_dev;
pub mod block_cache;
pub mod layout;
pub mod bitmap;
pub mod error;
pub mod efs;
pub mod block_map;
pub mod sound;
pub mod dir;
pub mod vfs;
pub mod tree;
pub mod mkfs;

pub use block_dev::{BlockDevice, RamDisk};
pub use config::{BLOCK_SIZE, BLOCKS_PER_GRP};
pub use efs::Ext2FileSystem;
pub use error::Ext2Error;
pub use path::{canonicalize, split_parent_name, split_path};
pub use vfs::Inode;
pub use layout::{EXT2_S_IFDIR, EXT2_S_IFREG};

verus! {

/// Sum of two sizes. The sum must fit in a `usize`.
pub fn add(left: usize, right: usize) -> (sum: usize)
    requires
        left + right <= usize::MAX,
    ensures
        sum == left + right,
{
    left + right
}

} // verus!
