//! The file system as a whole: superblock, group descriptors, allocation of
//! inodes and blocks.
use vstd::prelude::*;
use crate::bitmap::{
    bit, bit_cleared, bits_set, count_free, count_set, full, lemma_count_bound,
    lemma_count_clear_one, lemma_count_full, lemma_count_set_one, Bitmap, BLOCK_BITS,
};
use crate::block_cache::BlockCacheManager;
use crate::block_dev::BlockDevice;
use crate::codec::{get_u32, le32, patch, zeroed, zeros};
use crate::config::{
    BLOCK_SIZE, BLOCKS_PER_GRP, EXT2_GOOD_OLD_INODE_SIZE, EXT2_ROOT_INO, GROUP_DESC_SIZE,
    INODES_PER_BLOCK, INODES_PER_GRP, SUPER_BLOCK_OFFSET, SUPER_BLOCK_SIZE,
};
use crate::error::Ext2Error;
use crate::layout::{BlockGroupDesc, DiskInode, SB_MAGIC, SuperBlock};
use crate::vfs::Inode;

verus! {

/// Blocks of one inode table.
pub const INODE_TABLE_BLOCKS: usize = 1024;

/// Group descriptors in one block.
pub const DESCS_PER_BLOCK: usize = 128;

/// Most groups a file system can have.
pub const MAX_GROUPS: usize = 65535;

/// What a file system is, as plain values: the disk as readers see it
/// through the cache, the superblock and the group descriptors as they are
/// held in memory, and the time that the next change is stamped with.
pub struct FsView {
    pub disk: Seq<Seq<u8>>,
    pub super_block: SuperBlock,
    pub groups: Seq<BlockGroupDesc>,
    pub time: u32,
}

/// Blocks behind the superblock that hold the descriptors of `groups`
/// groups.
pub open spec fn desc_block_count(groups: int) -> int {
    (groups + DESCS_PER_BLOCK - 1) / DESCS_PER_BLOCK as int
}

/// The first block that group `g` may use for its bitmaps and inode table.
pub open spec fn group_lo(groups: int, g: int) -> int {
    if g == 0 {
        1 + desc_block_count(groups)
    } else {
        g * BLOCKS_PER_GRP
    }
}

/// The block behind the last one of group `g`.
pub open spec fn group_hi(blocks_count: int, g: int) -> int {
    if (g + 1) * BLOCKS_PER_GRP <= blocks_count {
        (g + 1) * BLOCKS_PER_GRP
    } else {
        blocks_count
    }
}

/// The bitmaps and the inode table of `d` lie between `lo` and `hi` and do
/// not overlap.
pub open spec fn group_ok(d: BlockGroupDesc, lo: int, hi: int) -> bool {
    &&& lo <= d.bg_block_bitmap < hi
    &&& lo <= d.bg_inode_bitmap < hi
    &&& lo <= d.bg_inode_table
    &&& d.bg_inode_table + INODE_TABLE_BLOCKS <= hi
    &&& d.bg_block_bitmap != d.bg_inode_bitmap
    &&& !(d.bg_inode_table <= d.bg_block_bitmap < d.bg_inode_table + INODE_TABLE_BLOCKS)
    &&& !(d.bg_inode_table <= d.bg_inode_bitmap < d.bg_inode_table + INODE_TABLE_BLOCKS)
}

/// Sum of the free block counts of the first `n` descriptors.
pub open spec fn sum_free_blocks(groups: Seq<BlockGroupDesc>, n: nat) -> nat
    decreases n,
{
    if n == 0 {
        0
    } else {
        sum_free_blocks(groups, (n - 1) as nat) + groups[n - 1].bg_free_blocks_count as nat
    }
}

/// Sum of the free inode counts of the first `n` descriptors.
pub open spec fn sum_free_inodes(groups: Seq<BlockGroupDesc>, n: nat) -> nat
    decreases n,
{
    if n == 0 {
        0
    } else {
        sum_free_inodes(groups, (n - 1) as nat) + groups[n - 1].bg_free_inodes_count as nat
    }
}

/// Where inode `id` is stored: the block and the byte inside it.
pub open spec fn inode_pos(groups: Seq<BlockGroupDesc>, id: int) -> (int, int) {
    let group = (id - 1) / INODES_PER_GRP as int;
    let index = (id - 1) % INODES_PER_GRP as int;
    (
        groups[group].bg_inode_table + index / INODES_PER_BLOCK as int,
        (index % INODES_PER_BLOCK as int) * EXT2_GOOD_OLD_INODE_SIZE,
    )
}

/// Where the descriptor of group `g` is stored.
pub open spec fn desc_pos(g: int) -> (int, int) {
    (1 + g / DESCS_PER_BLOCK as int, (g % DESCS_PER_BLOCK as int) * GROUP_DESC_SIZE)
}

impl FsView {
    /// The superblock and the descriptors fit the device and each other.
    pub open spec fn geometry_ok(self) -> bool {
        &&& self.super_block.s_magic == SB_MAGIC
        &&& 1 <= self.groups.len() <= MAX_GROUPS
        &&& self.super_block.s_block_group_nr == self.groups.len()
        &&& self.super_block.s_inodes_count == self.groups.len() * INODES_PER_GRP
        &&& self.super_block.s_first_data_block == 0
        &&& self.super_block.s_blocks_count <= self.disk.len()
        &&& (self.groups.len() - 1) * BLOCKS_PER_GRP < self.super_block.s_blocks_count
        &&& self.super_block.s_blocks_count <= self.groups.len() * BLOCKS_PER_GRP
        &&& forall|b: int| 0 <= b < self.disk.len() ==> (#[trigger] self.disk[b]).len() == BLOCK_SIZE
        &&& forall|g: int|
            0 <= g < self.groups.len() ==> group_ok(
                #[trigger] self.groups[g],
                group_lo(self.groups.len() as int, g),
                group_hi(self.super_block.s_blocks_count as int, g),
            )
    }

    /// Block `p` holds the superblock, descriptors, a bitmap or inodes.
    pub open spec fn is_meta(self, p: int) -> bool {
        let d = self.groups[p / BLOCKS_PER_GRP as int];
        ||| p < 1 + desc_block_count(self.groups.len() as int)
        ||| p == d.bg_block_bitmap
        ||| p == d.bg_inode_bitmap
        ||| d.bg_inode_table <= p < d.bg_inode_table + INODE_TABLE_BLOCKS
    }

    /// Block `p` is one that files keep their data and their block
    /// pointers in.
    pub open spec fn is_data(self, p: int) -> bool {
        0 <= p < self.super_block.s_blocks_count && !self.is_meta(p)
    }

    /// Block `p` is the block bitmap or the inode bitmap of some group.
    pub open spec fn is_bitmap(self, p: int) -> bool {
        exists|g: int|
            0 <= g < self.groups.len() && ((#[trigger] self.groups[g]).bg_block_bitmap == p
                || self.groups[g].bg_inode_bitmap == p)
    }

    /// The block bitmap of group `g`.
    pub open spec fn block_bitmap(self, g: int) -> Seq<u8> {
        self.disk[self.groups[g].bg_block_bitmap as int]
    }

    /// The inode bitmap of group `g`.
    pub open spec fn inode_bitmap(self, g: int) -> Seq<u8> {
        self.disk[self.groups[g].bg_inode_bitmap as int]
    }

    /// Whether block `p` is marked as used.
    pub open spec fn block_used(self, p: int) -> bool {
        bit(self.block_bitmap(p / BLOCKS_PER_GRP as int), p % BLOCKS_PER_GRP as int)
    }

    /// Whether inode `id` is marked as used.
    pub open spec fn inode_used(self, id: int) -> bool {
        bit(self.inode_bitmap((id - 1) / INODES_PER_GRP as int), (id - 1) % INODES_PER_GRP as int)
    }

    /// Every block that is not for data is marked as used: no allocation
    /// hands it out.
    pub open spec fn reserved_marked(self) -> bool {
        forall|p: int|
            0 <= p < self.groups.len() * BLOCKS_PER_GRP && !self.is_data(p) ==> #[trigger] self.block_used(p)
    }

    /// The free counts of every group are the numbers of clear bits in its
    /// bitmaps, and the free counts of the superblock are their sums.
    pub open spec fn counts_ok(self) -> bool {
        &&& forall|g: int|
            0 <= g < self.groups.len() ==> {
                &&& (#[trigger] self.groups[g]).bg_free_blocks_count == count_free(self.block_bitmap(g))
                &&& self.groups[g].bg_free_inodes_count == count_free(self.inode_bitmap(g))
            }
        &&& self.super_block.s_free_blocks_count == sum_free_blocks(self.groups, self.groups.len())
        &&& self.super_block.s_free_inodes_count == sum_free_inodes(self.groups, self.groups.len())
    }

    /// The geometry is right, every block that is not for data is marked
    /// as used, and the free counts are those of the bitmaps.
    #[verifier::opaque]
    pub open spec fn wf(self) -> bool {
        &&& self.geometry_ok()
        &&& self.reserved_marked()
        &&& self.counts_ok()
    }

    /// The superblock that the disk holds.
    pub open spec fn disk_super_block(self) -> SuperBlock {
        SuperBlock::parse(
            self.disk[0].subrange(SUPER_BLOCK_OFFSET as int, SUPER_BLOCK_OFFSET + SUPER_BLOCK_SIZE),
        )
    }

    /// The descriptor of group `g` that the disk holds.
    pub open spec fn disk_group_desc(self, g: int) -> BlockGroupDesc {
        BlockGroupDesc::parse(
            self.disk[desc_pos(g).0].subrange(desc_pos(g).1, desc_pos(g).1 + GROUP_DESC_SIZE),
        )
    }

    /// The disk holds the superblock and the descriptors as memory does.
    pub open spec fn meta_on_disk(self) -> bool {
        &&& self.disk_super_block() == self.super_block
        &&& forall|g: int| 0 <= g < self.groups.len() ==> #[trigger] self.disk_group_desc(g) == self.groups[g]
    }

    /// The inode stored at byte `off` of block `block`.
    pub open spec fn disk_inode(self, block: int, off: int) -> DiskInode {
        DiskInode::parse(self.disk[block].subrange(off, off + EXT2_GOOD_OLD_INODE_SIZE))
    }

    /// The first 1024 bytes of the disk, which the file system leaves to
    /// a boot sector.
    pub open spec fn boot(self) -> Seq<u8> {
        self.disk[0].subrange(0, SUPER_BLOCK_OFFSET as int)
    }

    /// This file system after `bytes` were written into block `block` from
    /// `off` on.
    pub open spec fn written(self, block: int, off: int, bytes: Seq<u8>) -> FsView {
        FsView { disk: self.disk.update(block, patch(self.disk[block], off, bytes)), ..self }
    }

    /// `other` is this file system after the free block `q` was taken:
    /// the block is marked as used and counted, and nothing else has
    /// changed.
    pub open spec fn took_block(self, other: FsView, q: int) -> bool {
        &&& self.same_geometry(other)
        &&& self.is_data(q)
        &&& !self.block_used(q)
        &&& other.time == self.time
        &&& other.super_block == (SuperBlock {
            s_free_blocks_count: other.super_block.s_free_blocks_count,
            ..self.super_block
        })
        &&& other.super_block.s_free_blocks_count == self.super_block.s_free_blocks_count - 1
        &&& forall|g: int|
            0 <= g < self.groups.len() ==> #[trigger] other.groups[g] == (BlockGroupDesc {
                bg_free_blocks_count: other.groups[g].bg_free_blocks_count,
                ..self.groups[g]
            })
        &&& forall|p: int|
            0 <= p < self.groups.len() * BLOCKS_PER_GRP ==> #[trigger] other.block_used(p) == (p == q
                || self.block_used(p))
        &&& forall|i: int|
            1 <= i <= self.super_block.s_inodes_count ==> #[trigger] other.inode_used(i) == self.inode_used(i)
        &&& forall|b: int| 0 <= b < self.disk.len() && !self.is_bitmap(b) ==> #[trigger] other.disk[b] == self.disk[b]
    }

    /// `other` is this file system after the data block `q` was given
    /// back: the block is filled with zeros, marked as free and counted,
    /// and nothing else has changed.
    pub open spec fn gave_block(self, other: FsView, q: int) -> bool {
        &&& self.same_geometry(other)
        &&& self.is_data(q)
        &&& self.block_used(q)
        &&& other.time == self.time
        &&& other.super_block == (SuperBlock {
            s_free_blocks_count: other.super_block.s_free_blocks_count,
            ..self.super_block
        })
        &&& other.super_block.s_free_blocks_count == self.super_block.s_free_blocks_count + 1
        &&& forall|g: int|
            0 <= g < self.groups.len() ==> #[trigger] other.groups[g] == (BlockGroupDesc {
                bg_free_blocks_count: other.groups[g].bg_free_blocks_count,
                ..self.groups[g]
            })
        &&& forall|p: int|
            0 <= p < self.groups.len() * BLOCKS_PER_GRP ==> #[trigger] other.block_used(p) == (p != q
                && self.block_used(p))
        &&& forall|i: int|
            1 <= i <= self.super_block.s_inodes_count ==> #[trigger] other.inode_used(i) == self.inode_used(i)
        &&& forall|b: int|
            0 <= b < self.disk.len() && !self.is_bitmap(b) && b != q ==> #[trigger] other.disk[b] == self.disk[b]
        &&& other.disk[q] == zeros(BLOCK_SIZE as nat)
    }

    /// `other` is this file system after the free inode `id` was taken:
    /// the inode is marked as used and counted, and nothing else has
    /// changed.
    pub open spec fn took_inode(self, other: FsView, id: int) -> bool {
        &&& self.same_geometry(other)
        &&& 1 <= id <= self.super_block.s_inodes_count
        &&& !self.inode_used(id)
        &&& other.time == self.time
        &&& other.super_block == (SuperBlock {
            s_free_inodes_count: other.super_block.s_free_inodes_count,
            ..self.super_block
        })
        &&& other.super_block.s_free_inodes_count == self.super_block.s_free_inodes_count - 1
        &&& forall|g: int|
            0 <= g < self.groups.len() ==> #[trigger] other.groups[g] == (BlockGroupDesc {
                bg_free_inodes_count: other.groups[g].bg_free_inodes_count,
                ..self.groups[g]
            })
        &&& forall|i: int|
            1 <= i <= self.super_block.s_inodes_count ==> #[trigger] other.inode_used(i) == (i == id
                || self.inode_used(i))
        &&& forall|p: int|
            0 <= p < self.groups.len() * BLOCKS_PER_GRP ==> #[trigger] other.block_used(p) == self.block_used(p)
        &&& forall|b: int| 0 <= b < self.disk.len() && !self.is_bitmap(b) ==> #[trigger] other.disk[b] == self.disk[b]
    }

    /// `other` is this file system after the inode `id` was given back:
    /// the inode is marked as free and counted, and nothing else has
    /// changed.
    pub open spec fn gave_inode(self, other: FsView, id: int) -> bool {
        &&& self.same_geometry(other)
        &&& 1 <= id <= self.super_block.s_inodes_count
        &&& self.inode_used(id)
        &&& other.time == self.time
        &&& other.super_block == (SuperBlock {
            s_free_inodes_count: other.super_block.s_free_inodes_count,
            ..self.super_block
        })
        &&& other.super_block.s_free_inodes_count == self.super_block.s_free_inodes_count + 1
        &&& forall|g: int|
            0 <= g < self.groups.len() ==> #[trigger] other.groups[g] == (BlockGroupDesc {
                bg_free_inodes_count: other.groups[g].bg_free_inodes_count,
                ..self.groups[g]
            })
        &&& forall|i: int|
            1 <= i <= self.super_block.s_inodes_count ==> #[trigger] other.inode_used(i) == (i != id
                && self.inode_used(i))
        &&& forall|p: int|
            0 <= p < self.groups.len() * BLOCKS_PER_GRP ==> #[trigger] other.block_used(p) == self.block_used(p)
        &&& forall|b: int| 0 <= b < self.disk.len() && !self.is_bitmap(b) ==> #[trigger] other.disk[b] == self.disk[b]
    }

    /// Where only one inode bitmap has changed between this file system
    /// and `other`, and in it the bit of inode `id` alone, every other
    /// inode is marked as it was, and so is every block.
    pub proof fn lemma_one_inode_bit(self, other: FsView, id: int, set: bool)
        requires
            self.wf(),
            self.same_geometry(other),
            1 <= id <= self.super_block.s_inodes_count,
            ({
                let bitmap = self.groups[(id - 1) / INODES_PER_GRP as int].bg_inode_bitmap as int;
                &&& other.disk.len() == self.disk.len()
                &&& forall|b: int| 0 <= b < self.disk.len() && b != bitmap && self.is_bitmap(b) ==> #[trigger] other.disk[b] == self.disk[b]
                &&& forall|j: int|
                    0 <= j < BLOCK_BITS ==> #[trigger] bit(other.disk[bitmap], j) == if j == (id - 1) % INODES_PER_GRP as int {
                        set
                    } else {
                        bit(self.disk[bitmap], j)
                    }
            }),
        ensures
            forall|i: int|
                1 <= i <= self.super_block.s_inodes_count ==> #[trigger] other.inode_used(i) == if i == id {
                    set
                } else {
                    self.inode_used(i)
                },
            forall|p: int|
                0 <= p < self.groups.len() * BLOCKS_PER_GRP ==> #[trigger] other.block_used(p) == self.block_used(p),
    {
        reveal(FsView::wf);
        let gq = (id - 1) / INODES_PER_GRP as int;
        assert(0 <= gq < self.groups.len());
        let bitmap = self.groups[gq].bg_inode_bitmap as int;
        assert forall|g: int| 0 <= g < self.groups.len() implies (g != gq ==> #[trigger] self.groups[g].bg_inode_bitmap
            != bitmap) && self.groups[g].bg_block_bitmap != bitmap && self.is_bitmap(
            self.groups[g].bg_block_bitmap as int,
        ) && self.is_bitmap(self.groups[g].bg_inode_bitmap as int) && self.groups[g].bg_block_bitmap
            < self.disk.len() && self.groups[g].bg_inode_bitmap < self.disk.len() by {
            assert(group_ok(
                self.groups[g],
                group_lo(self.groups.len() as int, g),
                group_hi(self.super_block.s_blocks_count as int, g),
            ));
            assert(group_ok(
                self.groups[gq],
                group_lo(self.groups.len() as int, gq),
                group_hi(self.super_block.s_blocks_count as int, gq),
            ));
        }
        assert forall|i: int| 1 <= i <= self.super_block.s_inodes_count implies #[trigger] other.inode_used(i)
            == if i == id {
            set
        } else {
            self.inode_used(i)
        } by {
            let g = (i - 1) / INODES_PER_GRP as int;
            assert(0 <= g < self.groups.len());
            assert(other.groups[g].bg_inode_bitmap == self.groups[g].bg_inode_bitmap);
            if g != gq {
                assert(self.groups[g].bg_inode_bitmap != bitmap);
                assert(other.disk[self.groups[g].bg_inode_bitmap as int] == self.disk[self.groups[g].bg_inode_bitmap as int]);
            }
        }
        assert forall|p: int| 0 <= p < self.groups.len() * BLOCKS_PER_GRP implies #[trigger] other.block_used(p)
            == self.block_used(p) by {
            let g = p / BLOCKS_PER_GRP as int;
            assert(0 <= g < self.groups.len());
            assert(other.groups[g].bg_block_bitmap == self.groups[g].bg_block_bitmap);
            assert(self.groups[g].bg_block_bitmap != bitmap);
            assert(other.disk[self.groups[g].bg_block_bitmap as int] == self.disk[self.groups[g].bg_block_bitmap as int]);
        }
    }

    /// Where only one block bitmap has changed between this file system and
    /// `other`, and in it the bit of block `q` alone, every other block is
    /// marked as it was, and so is every inode.
    pub proof fn lemma_one_bit(self, other: FsView, q: int, set: bool)
        requires
            self.wf(),
            self.same_geometry(other),
            self.is_data(q),
            ({
                let bitmap = self.groups[q / BLOCKS_PER_GRP as int].bg_block_bitmap as int;
                &&& other.disk.len() == self.disk.len()
                &&& forall|b: int| 0 <= b < self.disk.len() && b != bitmap && self.is_bitmap(b) ==> #[trigger] other.disk[b] == self.disk[b]
                &&& forall|j: int|
                    0 <= j < BLOCK_BITS ==> #[trigger] bit(other.disk[bitmap], j) == if j == q % BLOCKS_PER_GRP as int {
                        set
                    } else {
                        bit(self.disk[bitmap], j)
                    }
            }),
        ensures
            forall|p: int|
                0 <= p < self.groups.len() * BLOCKS_PER_GRP ==> #[trigger] other.block_used(p) == if p == q {
                    set
                } else {
                    self.block_used(p)
                },
            forall|i: int|
                1 <= i <= self.super_block.s_inodes_count ==> #[trigger] other.inode_used(i) == self.inode_used(i),
    {
        reveal(FsView::wf);
        let gq = q / BLOCKS_PER_GRP as int;
        self.lemma_groups_apart(q);
        let bitmap = self.groups[gq].bg_block_bitmap as int;
        assert forall|g: int| 0 <= g < self.groups.len() implies (g != gq ==> #[trigger] self.groups[g].bg_block_bitmap
            != bitmap) && self.groups[g].bg_inode_bitmap != bitmap && self.is_bitmap(
            self.groups[g].bg_block_bitmap as int,
        ) && self.is_bitmap(self.groups[g].bg_inode_bitmap as int) && self.groups[g].bg_block_bitmap
            < self.disk.len() && self.groups[g].bg_inode_bitmap < self.disk.len() by {
            assert(group_ok(
                self.groups[g],
                group_lo(self.groups.len() as int, g),
                group_hi(self.super_block.s_blocks_count as int, g),
            ));
            assert(group_ok(
                self.groups[gq],
                group_lo(self.groups.len() as int, gq),
                group_hi(self.super_block.s_blocks_count as int, gq),
            ));
        }
        assert forall|p: int| 0 <= p < self.groups.len() * BLOCKS_PER_GRP implies #[trigger] other.block_used(p)
            == if p == q {
            set
        } else {
            self.block_used(p)
        } by {
            let g = p / BLOCKS_PER_GRP as int;
            assert(0 <= g < self.groups.len());
            assert(other.groups[g].bg_block_bitmap == self.groups[g].bg_block_bitmap);
            if g != gq {
                assert(self.groups[g].bg_block_bitmap != bitmap);
                assert(other.disk[self.groups[g].bg_block_bitmap as int] == self.disk[self.groups[g].bg_block_bitmap as int]);
            }
        }
        assert forall|i: int| 1 <= i <= self.super_block.s_inodes_count implies #[trigger] other.inode_used(i)
            == self.inode_used(i) by {
            let g = (i - 1) / INODES_PER_GRP as int;
            assert(0 <= g < self.groups.len());
            assert(other.groups[g].bg_inode_bitmap == self.groups[g].bg_inode_bitmap);
            assert(self.groups[g].bg_inode_bitmap != bitmap);
            assert(other.disk[self.groups[g].bg_inode_bitmap as int] == self.disk[self.groups[g].bg_inode_bitmap as int]);
        }
    }

    /// Writing into a block that is no bitmap leaves every block and every
    /// inode marked as it was.
    pub proof fn lemma_written_marks(self, block: int, off: int, bytes: Seq<u8>)
        requires
            self.wf(),
            0 <= block < self.disk.len(),
            !self.is_bitmap(block),
        ensures
            forall|p: int|
                0 <= p < self.groups.len() * BLOCKS_PER_GRP ==> #[trigger] self.written(block, off, bytes).block_used(
                    p,
                ) == self.block_used(p),
            forall|i: int|
                1 <= i <= self.super_block.s_inodes_count ==> #[trigger] self.written(block, off, bytes).inode_used(i)
                    == self.inode_used(i),
    {
        reveal(FsView::wf);
        let w = self.written(block, off, bytes);
        assert forall|g: int| 0 <= g < self.groups.len() implies w.block_bitmap(g) == self.block_bitmap(g)
            && w.inode_bitmap(g) == self.inode_bitmap(g) by {
            assert(group_ok(
                self.groups[g],
                group_lo(self.groups.len() as int, g),
                group_hi(self.super_block.s_blocks_count as int, g),
            ));
            assert(self.is_bitmap(self.groups[g].bg_block_bitmap as int));
            assert(self.is_bitmap(self.groups[g].bg_inode_bitmap as int));
        }
        assert forall|p: int| 0 <= p < self.groups.len() * BLOCKS_PER_GRP implies #[trigger] w.block_used(p)
            == self.block_used(p) by {
            assert(0 <= p / BLOCKS_PER_GRP as int && p / (BLOCKS_PER_GRP as int) < self.groups.len());
        }
        assert forall|i: int| 1 <= i <= self.super_block.s_inodes_count implies #[trigger] w.inode_used(i)
            == self.inode_used(i) by {
            assert(0 <= (i - 1) / INODES_PER_GRP as int && (i - 1) / (INODES_PER_GRP as int) < self.groups.len());
        }
    }

    /// This file system after `inode` was stored at byte `off` of block
    /// `block`.
    pub open spec fn inode_written(self, block: int, off: int, inode: DiskInode) -> FsView {
        self.written(block, off, inode.store(self.disk[block].subrange(off, off + EXT2_GOOD_OLD_INODE_SIZE)))
    }

    /// This file system after the descriptor of group `g` was written to
    /// disk.
    pub open spec fn desc_written(self, g: int) -> FsView {
        self.written(
            desc_pos(g).0,
            desc_pos(g).1,
            self.groups[g].store(self.disk[desc_pos(g).0].subrange(desc_pos(g).1, desc_pos(g).1 + GROUP_DESC_SIZE)),
        )
    }

    /// This file system after the descriptors of the first `n` groups were
    /// written to disk, one after the other.
    pub open spec fn descs_written(self, n: nat) -> FsView
        decreases n,
    {
        if n == 0 {
            self
        } else {
            self.descs_written((n - 1) as nat).desc_written(n - 1)
        }
    }

    /// The places of everything are the same in `other`: the superblock's
    /// counts of blocks and inodes, and where each group keeps its bitmaps
    /// and inodes.
    pub open spec fn same_geometry(self, other: FsView) -> bool {
        &&& other.disk.len() == self.disk.len()
        &&& other.groups.len() == self.groups.len()
        &&& other.super_block.s_magic == self.super_block.s_magic
        &&& other.super_block.s_block_group_nr == self.super_block.s_block_group_nr
        &&& other.super_block.s_inodes_count == self.super_block.s_inodes_count
        &&& other.super_block.s_first_data_block == self.super_block.s_first_data_block
        &&& other.super_block.s_blocks_count == self.super_block.s_blocks_count
        &&& forall|g: int|
            0 <= g < self.groups.len() ==> {
                &&& (#[trigger] other.groups[g]).bg_block_bitmap == self.groups[g].bg_block_bitmap
                &&& other.groups[g].bg_inode_bitmap == self.groups[g].bg_inode_bitmap
                &&& other.groups[g].bg_inode_table == self.groups[g].bg_inode_table
            }
    }

    /// The superblock and the descriptors stand in blocks of the device
    /// that are no bitmaps.
    pub proof fn lemma_low_blocks(self, p: int)
        requires
            self.wf(),
            0 <= p < 1 + desc_block_count(self.groups.len() as int),
        ensures
            p < self.disk.len(),
            !self.is_bitmap(p),
            self.is_meta(p),
    {
        reveal(FsView::wf);
        assert(group_ok(
            self.groups[0],
            group_lo(self.groups.len() as int, 0),
            group_hi(self.super_block.s_blocks_count as int, 0),
        ));
        if self.is_bitmap(p) {
            let g = choose|g: int|
                0 <= g < self.groups.len() && ((#[trigger] self.groups[g]).bg_block_bitmap == p
                    || self.groups[g].bg_inode_bitmap == p);
            assert(group_ok(
                self.groups[g],
                group_lo(self.groups.len() as int, g),
                group_hi(self.super_block.s_blocks_count as int, g),
            ));
        }
    }

    /// After the descriptors of the first `n` groups were written the disk
    /// holds each of them as memory does; the superblock on disk, the
    /// descriptors in memory and everything behind the descriptor blocks
    /// are as before.
    pub proof fn lemma_descs_written(self, n: nat)
        requires
            self.wf(),
            n <= self.groups.len(),
        ensures
            self.descs_written(n).super_block == self.super_block,
            self.descs_written(n).groups == self.groups,
            self.descs_written(n).time == self.time,
            self.descs_written(n).disk.len() == self.disk.len(),
            self.descs_written(n).disk[0] == self.disk[0],
            forall|b: int|
                1 + desc_block_count(self.groups.len() as int) <= b < self.disk.len() ==> #[trigger] self.descs_written(n).disk[b]
                    == self.disk[b],
            forall|b: int| 0 <= b < self.disk.len() ==> (#[trigger] self.descs_written(n).disk[b]).len() == BLOCK_SIZE,
            forall|g: int| 0 <= g < n ==> #[trigger] self.descs_written(n).disk_group_desc(g) == self.groups[g],
            forall|g: int| n <= g < self.groups.len() ==> #[trigger] self.descs_written(n).disk_group_desc(g) == self.disk_group_desc(g),
        decreases n,
    {
        reveal(FsView::wf);
        if n > 0 {
            let prev = self.descs_written((n - 1) as nat);
            self.lemma_descs_written((n - 1) as nat);
            let g = n - 1;
            let (b, o) = desc_pos(g);
            self.lemma_low_blocks(b);
            let region = prev.disk[b].subrange(o, o + GROUP_DESC_SIZE);
            let stored = prev.groups[g].store(region);
            prev.groups[g].lemma_store_parse(region);
            let next = prev.desc_written(g);
            crate::codec::lemma_patch_read(prev.disk[b], o, stored);
            assert forall|h: int| 0 <= h < self.groups.len() && h != g implies #[trigger] next.disk_group_desc(h)
                == prev.disk_group_desc(h) by {
                let (bh, oh) = desc_pos(h);
                self.lemma_low_blocks(bh);
                if bh == b {
                    crate::codec::lemma_patch_frame(prev.disk[b], o, stored, oh, oh + GROUP_DESC_SIZE);
                }
            }
        }
    }

    /// The place of a valid inode number is inside the inode table of its
    /// group, which is no bitmap and no block for data.
    pub proof fn lemma_inode_pos(self, id: int)
        requires
            self.wf(),
            1 <= id <= self.super_block.s_inodes_count,
        ensures
            0 <= inode_pos(self.groups, id).0 < self.super_block.s_blocks_count,
            inode_pos(self.groups, id).0 < self.disk.len(),
            !self.is_data(inode_pos(self.groups, id).0),
            0 <= inode_pos(self.groups, id).1,
            inode_pos(self.groups, id).1 + EXT2_GOOD_OLD_INODE_SIZE <= BLOCK_SIZE,
            !self.is_bitmap(inode_pos(self.groups, id).0),
            self.is_meta(inode_pos(self.groups, id).0),
    {
        reveal(FsView::wf);
        let g = (id - 1) / INODES_PER_GRP as int;
        let p = inode_pos(self.groups, id).0;
        assert(0 <= g < self.groups.len());
        assert(group_ok(
            self.groups[g],
            group_lo(self.groups.len() as int, g),
            group_hi(self.super_block.s_blocks_count as int, g),
        ));
        if g != 0 {
            assert(g * BLOCKS_PER_GRP <= p < (g + 1) * BLOCKS_PER_GRP);
        }
        assert(p / BLOCKS_PER_GRP as int == g);
        if self.is_bitmap(p) {
            let h = choose|h: int|
                0 <= h < self.groups.len() && ((#[trigger] self.groups[h]).bg_block_bitmap == p
                    || self.groups[h].bg_inode_bitmap == p);
            assert(group_ok(
                self.groups[h],
                group_lo(self.groups.len() as int, h),
                group_hi(self.super_block.s_blocks_count as int, h),
            ));
            if h != 0 {
                assert(h * BLOCKS_PER_GRP <= p < (h + 1) * BLOCKS_PER_GRP);
            }
            assert(h == g);
        }
    }

    /// The bitmaps stand behind the blocks of the superblock and the
    /// descriptors, inside the device.
    pub proof fn lemma_bitmaps_high(self)
        requires
            self.wf(),
        ensures
            forall|g: int|
                0 <= g < self.groups.len() ==> 1 + desc_block_count(self.groups.len() as int) <= (
                #[trigger] self.groups[g]).bg_block_bitmap < self.disk.len() && 1 + desc_block_count(
                    self.groups.len() as int,
                ) <= self.groups[g].bg_inode_bitmap < self.disk.len(),
    {
        reveal(FsView::wf);
        assert forall|g: int| 0 <= g < self.groups.len() implies 1 + desc_block_count(self.groups.len() as int) <= (
        #[trigger] self.groups[g]).bg_block_bitmap < self.disk.len() && 1 + desc_block_count(
            self.groups.len() as int,
        ) <= self.groups[g].bg_inode_bitmap < self.disk.len() by {
            assert(group_ok(
                self.groups[g],
                group_lo(self.groups.len() as int, g),
                group_hi(self.super_block.s_blocks_count as int, g),
            ));
            assert(desc_block_count(self.groups.len() as int) < BLOCKS_PER_GRP);
        }
    }

    /// The inodes are stored behind the blocks of the superblock and the
    /// descriptors.
    pub proof fn lemma_inode_table_high(self, id: int)
        requires
            self.wf(),
            1 <= id <= self.super_block.s_inodes_count,
        ensures
            inode_pos(self.groups, id).0 >= 1 + desc_block_count(self.groups.len() as int),
    {
        reveal(FsView::wf);
        let g = (id - 1) / INODES_PER_GRP as int;
        assert(group_ok(
            self.groups[g],
            group_lo(self.groups.len() as int, g),
            group_hi(self.super_block.s_blocks_count as int, g),
        ));
        assert(desc_block_count(self.groups.len() as int) < BLOCKS_PER_GRP);
    }

    /// Where the blocks behind those of the superblock and the descriptors
    /// are as they were, so is the mark of every inode.
    pub proof fn lemma_inode_mark_kept(self, other: FsView, id: int)
        requires
            self.wf(),
            1 <= id <= self.super_block.s_inodes_count,
            other.groups == self.groups,
            forall|x: int|
                1 + desc_block_count(self.groups.len() as int) <= x < self.disk.len() ==> #[trigger] other.disk[x]
                    == self.disk[x],
        ensures
            other.inode_used(id) == self.inode_used(id),
    {
        self.lemma_bitmaps_high();
        let g = (id - 1) / INODES_PER_GRP as int;
        reveal(FsView::wf);
        assert(0 <= g < self.groups.len());
    }

    /// Where the blocks behind those of the superblock and the descriptors
    /// are as they were, and the descriptors too, every inode and every
    /// block is marked as it was.
    pub proof fn lemma_marks_kept(self, other: FsView)
        requires
            self.wf(),
            other.groups == self.groups,
            other.super_block == self.super_block,
            other.time == self.time,
            forall|x: int|
                1 + desc_block_count(self.groups.len() as int) <= x < self.disk.len() ==> #[trigger] other.disk[x]
                    == self.disk[x],
        ensures
            forall|i: int|
                1 <= i <= self.super_block.s_inodes_count ==> #[trigger] other.inode_used(i) == self.inode_used(i),
            forall|p: int|
                0 <= p < self.groups.len() * BLOCKS_PER_GRP ==> #[trigger] other.block_used(p) == self.block_used(p),
    {
        self.lemma_bitmaps_high();
        reveal(FsView::wf);
        assert forall|i: int| 1 <= i <= self.super_block.s_inodes_count implies #[trigger] other.inode_used(i)
            == self.inode_used(i) by {
            let g = (i - 1) / INODES_PER_GRP as int;
            assert(0 <= g < self.groups.len());
        }
        assert forall|p: int| 0 <= p < self.groups.len() * BLOCKS_PER_GRP implies #[trigger] other.block_used(p)
            == self.block_used(p) by {
            self.lemma_group_of(p);
        }
    }

    /// A block of some group is a block of one of the groups there are.
    pub proof fn lemma_group_of(self, p: int)
        requires
            0 <= p < self.groups.len() * BLOCKS_PER_GRP,
        ensures
            0 <= p / BLOCKS_PER_GRP as int,
            p / (BLOCKS_PER_GRP as int) < self.groups.len(),
    {
    }

    /// Two inodes are stored at two places.
    pub proof fn lemma_pos_apart(self, i: int, j: int)
        requires
            self.wf(),
            1 <= i <= self.super_block.s_inodes_count,
            1 <= j <= self.super_block.s_inodes_count,
            i != j,
        ensures
            inode_pos(self.groups, i) != inode_pos(self.groups, j),
    {
        reveal(FsView::wf);
        let gi = (i - 1) / INODES_PER_GRP as int;
        let gj = (j - 1) / INODES_PER_GRP as int;
        assert(group_ok(
            self.groups[gi],
            group_lo(self.groups.len() as int, gi),
            group_hi(self.super_block.s_blocks_count as int, gi),
        ));
        assert(group_ok(
            self.groups[gj],
            group_lo(self.groups.len() as int, gj),
            group_hi(self.super_block.s_blocks_count as int, gj),
        ));
        if gi != gj {
            let pi = inode_pos(self.groups, i).0;
            let pj = inode_pos(self.groups, j).0;
            assert(group_lo(self.groups.len() as int, gi) <= pi < group_hi(self.super_block.s_blocks_count as int, gi));
            assert(group_lo(self.groups.len() as int, gj) <= pj < group_hi(self.super_block.s_blocks_count as int, gj));
            if gi < gj {
                assert(pi < (gi + 1) * BLOCKS_PER_GRP <= gj * BLOCKS_PER_GRP <= pj);
            } else {
                assert(pj < (gj + 1) * BLOCKS_PER_GRP <= gi * BLOCKS_PER_GRP <= pi);
            }
        }
    }

    /// With the same geometry the same blocks are for data, the same are
    /// bitmaps, and every inode is stored where it was.
    pub proof fn lemma_same_geometry(self, other: FsView)
        requires
            self.wf(),
            self.same_geometry(other),
        ensures
            forall|p: int| self.is_data(p) == other.is_data(p),
            forall|p: int| 0 <= p < self.disk.len() ==> self.is_bitmap(p) == other.is_bitmap(p),
            forall|id: int|
                1 <= id <= self.super_block.s_inodes_count ==> inode_pos(self.groups, id) == inode_pos(
                    other.groups,
                    id,
                ),
    {
        reveal(FsView::wf);
        assert forall|p: int| self.is_data(p) == other.is_data(p) by {
            if 0 <= p < self.super_block.s_blocks_count {
                let g = p / BLOCKS_PER_GRP as int;
                assert(0 <= g < self.groups.len());
                assert(other.groups[g].bg_block_bitmap == self.groups[g].bg_block_bitmap);
            }
        }
        assert forall|p: int| 0 <= p < self.disk.len() implies self.is_bitmap(p) == other.is_bitmap(p) by {
            if self.is_bitmap(p) {
                let g = choose|g: int|
                    0 <= g < self.groups.len() && ((#[trigger] self.groups[g]).bg_block_bitmap == p
                        || self.groups[g].bg_inode_bitmap == p);
                assert(other.groups[g].bg_block_bitmap == p || other.groups[g].bg_inode_bitmap == p);
            }
            if other.is_bitmap(p) {
                let g = choose|g: int|
                    0 <= g < other.groups.len() && ((#[trigger] other.groups[g]).bg_block_bitmap == p
                        || other.groups[g].bg_inode_bitmap == p);
                assert(self.groups[g].bg_block_bitmap == p || self.groups[g].bg_inode_bitmap == p);
            }
        }
        assert forall|id: int| 1 <= id <= self.super_block.s_inodes_count implies inode_pos(self.groups, id)
            == inode_pos(other.groups, id) by {
            let g = (id - 1) / INODES_PER_GRP as int;
            assert(0 <= g < self.groups.len());
            assert(other.groups[g].bg_inode_table == self.groups[g].bg_inode_table);
        }
    }

    /// A block for data is a block of the device and no bitmap.
    pub proof fn lemma_data_block(self, p: int)
        requires
            self.wf(),
            self.is_data(p),
        ensures
            0 <= p < self.disk.len(),
            self.disk[p].len() == BLOCK_SIZE,
            !self.is_bitmap(p),
    {
        reveal(FsView::wf);
        self.lemma_groups_apart(p);
    }

    /// A block for data is a block of some group.
    pub proof fn lemma_in_groups(self, p: int)
        requires
            self.wf(),
            self.is_data(p),
        ensures
            0 <= p < self.groups.len() * BLOCKS_PER_GRP,
    {
        reveal(FsView::wf);
    }

    /// Every block of the device has `BLOCK_SIZE` bytes, and the device has
    /// at least the blocks that the superblock counts.
    pub proof fn lemma_blocks(self)
        requires
            self.wf(),
        ensures
            self.super_block.s_blocks_count <= self.disk.len(),
            1 <= self.super_block.s_inodes_count,
            forall|b: int| 0 <= b < self.disk.len() ==> (#[trigger] self.disk[b]).len() == BLOCK_SIZE,
    {
        reveal(FsView::wf);
    }

    /// A data block is no bitmap.
    pub proof fn lemma_groups_apart(self, p: int)
        requires
            self.wf(),
            0 <= p < self.super_block.s_blocks_count,
        ensures
            self.is_bitmap(p) ==> self.is_meta(p),
            0 <= p / (BLOCKS_PER_GRP as int) && p / (BLOCKS_PER_GRP as int) < self.groups.len(),
    {
        reveal(FsView::wf);
        let gp = p / BLOCKS_PER_GRP as int;
        if self.is_bitmap(p) {
            let g = choose|g: int|
                0 <= g < self.groups.len() && ((#[trigger] self.groups[g]).bg_block_bitmap == p
                    || self.groups[g].bg_inode_bitmap == p);
            assert(group_ok(
                self.groups[g],
                group_lo(self.groups.len() as int, g),
                group_hi(self.super_block.s_blocks_count as int, g),
            ));
            if g != 0 {
                assert(g * BLOCKS_PER_GRP <= p < (g + 1) * BLOCKS_PER_GRP);
                assert(gp == g);
            } else {
                assert(p < BLOCKS_PER_GRP);
                assert(gp == 0);
            }
        }
    }

    /// A change of the disk that leaves every bitmap as it was leaves the
    /// file system valid.
    pub proof fn lemma_frame(self, other: FsView)
        requires
            self.wf(),
            other.super_block == self.super_block,
            other.groups == self.groups,
            other.disk.len() == self.disk.len(),
            forall|b: int| 0 <= b < other.disk.len() ==> (#[trigger] other.disk[b]).len() == BLOCK_SIZE,
            forall|b: int| 0 <= b < self.disk.len() && self.is_bitmap(b) ==> #[trigger] other.disk[b] == self.disk[b],
        ensures
            other.wf(),
    {
        reveal(FsView::wf);
        assert forall|g: int| 0 <= g < self.groups.len() implies other.block_bitmap(g) == self.block_bitmap(g)
            && other.inode_bitmap(g) == self.inode_bitmap(g) by {
            assert(group_ok(
                self.groups[g],
                group_lo(self.groups.len() as int, g),
                group_hi(self.super_block.s_blocks_count as int, g),
            ));
            assert(self.is_bitmap(self.groups[g].bg_block_bitmap as int));
            assert(self.is_bitmap(self.groups[g].bg_inode_bitmap as int));
        }
        assert forall|p: int| 0 <= p < other.groups.len() * BLOCKS_PER_GRP && !other.is_data(p) implies #[trigger] other.block_used(p) by {
            assert(self.block_used(p));
            assert(0 <= p / (BLOCKS_PER_GRP as int) && p / (BLOCKS_PER_GRP as int) < self.groups.len());
        }
        assert forall|g: int| 0 <= g < other.groups.len() implies {
            &&& (#[trigger] other.groups[g]).bg_free_blocks_count == count_free(other.block_bitmap(g))
            &&& other.groups[g].bg_free_inodes_count == count_free(other.inode_bitmap(g))
        } by {
            assert(self.groups[g].bg_free_blocks_count == count_free(self.block_bitmap(g)));
        }
    }

    /// No group counts more free blocks or inodes than a bitmap has bits.
    pub proof fn lemma_counts_bounded(self)
        requires
            self.wf(),
        ensures
            forall|k: int|
                0 <= k < self.groups.len() ==> (#[trigger] self.groups[k]).bg_free_blocks_count <= BLOCK_BITS
                    && self.groups[k].bg_free_inodes_count <= BLOCK_BITS,
    {
        reveal(FsView::wf);
        assert forall|k: int| 0 <= k < self.groups.len() implies (#[trigger] self.groups[k]).bg_free_blocks_count
            <= BLOCK_BITS && self.groups[k].bg_free_inodes_count <= BLOCK_BITS by {
            lemma_count_bound(self.block_bitmap(k), BLOCK_BITS as nat);
            lemma_count_bound(self.inode_bitmap(k), BLOCK_BITS as nat);
        }
    }

    /// Writing into a block that is no bitmap leaves the file system valid.
    pub proof fn lemma_written_wf(self, block: int, off: int, bytes: Seq<u8>)
        requires
            self.wf(),
            0 <= block < self.disk.len(),
            !self.is_bitmap(block),
        ensures
            self.written(block, off, bytes).wf(),
    {
        reveal(FsView::wf);
        self.lemma_frame(self.written(block, off, bytes));
    }
}

/// Number of set bits in the inode bitmaps of the first `n` groups.
pub open spec fn inodes_marked(v: FsView, n: nat) -> nat
    decreases n,
{
    if n == 0 {
        0
    } else {
        inodes_marked(v, (n - 1) as nat) + count_set(v.inode_bitmap(n - 1), BLOCK_BITS as nat)
    }
}

/// Number of set bits in the block bitmaps of the first `n` groups.
pub open spec fn blocks_marked(v: FsView, n: nat) -> nat
    decreases n,
{
    if n == 0 {
        0
    } else {
        blocks_marked(v, (n - 1) as nat) + count_set(v.block_bitmap(n - 1), BLOCK_BITS as nat)
    }
}

/// In the first `n` groups of a valid file system the set bits of the
/// bitmaps and the free counts add up to the bits there are.
pub proof fn lemma_marked_and_free(v: FsView, n: nat)
    requires
        v.wf(),
        n <= v.groups.len(),
    ensures
        inodes_marked(v, n) + sum_free_inodes(v.groups, n) == n * BLOCK_BITS,
        blocks_marked(v, n) + sum_free_blocks(v.groups, n) == n * BLOCK_BITS,
    decreases n,
{
    reveal(FsView::wf);
    if n > 0 {
        lemma_marked_and_free(v, (n - 1) as nat);
        lemma_count_bound(v.inode_bitmap(n - 1), BLOCK_BITS as nat);
        lemma_count_bound(v.block_bitmap(n - 1), BLOCK_BITS as nat);
        assert(v.groups[n - 1].bg_free_inodes_count == count_free(v.inode_bitmap(n - 1)));
    }
}

/// Bitmaps and counters agree in every valid file system, and every
/// operation of this library leads from a valid file system to a valid
/// one: the number of set bits in all inode bitmaps is the number of
/// inodes less the count of free inodes, and the number of set bits in all
/// block bitmaps is the number of blocks that the groups span less the
/// count of free blocks. (The last group may span more blocks than the
/// device has; the bits of those are set.)
pub proof fn lemma_counters_consistent(v: FsView)
    requires
        v.wf(),
    ensures
        inodes_marked(v, v.groups.len()) == v.super_block.s_inodes_count - v.super_block.s_free_inodes_count,
        blocks_marked(v, v.groups.len()) == v.groups.len() * BLOCKS_PER_GRP
            - v.super_block.s_free_blocks_count,
        forall|g: int|
            0 <= g < v.groups.len() ==> count_set(v.inode_bitmap(g), BLOCK_BITS as nat) == INODES_PER_GRP - (
            #[trigger] v.groups[g]).bg_free_inodes_count && count_set(v.block_bitmap(g), BLOCK_BITS as nat)
                == BLOCKS_PER_GRP - v.groups[g].bg_free_blocks_count,
{
    lemma_marked_and_free(v, v.groups.len());
    reveal(FsView::wf);
    assert forall|g: int| 0 <= g < v.groups.len() implies count_set(v.inode_bitmap(g), BLOCK_BITS as nat)
        == INODES_PER_GRP - (#[trigger] v.groups[g]).bg_free_inodes_count && count_set(
        v.block_bitmap(g),
        BLOCK_BITS as nat,
    ) == BLOCKS_PER_GRP - v.groups[g].bg_free_blocks_count by {
        lemma_count_bound(v.inode_bitmap(g), BLOCK_BITS as nat);
        lemma_count_bound(v.block_bitmap(g), BLOCK_BITS as nat);
    }
}

/// The sum of the free counts of some groups is at most what so many
/// bitmaps can hold, and no single count is more than the sum.
pub proof fn lemma_sum_bounds(groups: Seq<BlockGroupDesc>, n: nat, g: int)
    requires
        n <= groups.len(),
        forall|k: int| 0 <= k < groups.len() ==> (#[trigger] groups[k]).bg_free_blocks_count <= BLOCK_BITS
            && groups[k].bg_free_inodes_count <= BLOCK_BITS,
    ensures
        sum_free_blocks(groups, n) <= n * BLOCK_BITS,
        sum_free_inodes(groups, n) <= n * BLOCK_BITS,
        0 <= g < n ==> groups[g].bg_free_blocks_count <= sum_free_blocks(groups, n),
        0 <= g < n ==> groups[g].bg_free_inodes_count <= sum_free_inodes(groups, n),
    decreases n,
{
    if n > 0 {
        lemma_sum_bounds(groups, (n - 1) as nat, g);
        assert(groups[n - 1].bg_free_blocks_count <= BLOCK_BITS);
    }
}

/// Changing the counts of one group changes the sums by as much.
pub proof fn lemma_sum_update(groups: Seq<BlockGroupDesc>, g: int, d: BlockGroupDesc, n: nat)
    requires
        0 <= g < groups.len(),
        n <= groups.len(),
    ensures
        sum_free_blocks(groups.update(g, d), n) == sum_free_blocks(groups, n) + if g < n {
            d.bg_free_blocks_count - groups[g].bg_free_blocks_count
        } else {
            0
        },
        sum_free_inodes(groups.update(g, d), n) == sum_free_inodes(groups, n) + if g < n {
            d.bg_free_inodes_count - groups[g].bg_free_inodes_count
        } else {
            0
        },
    decreases n,
{
    if n > 0 {
        lemma_sum_update(groups, g, d, (n - 1) as nat);
    }
}

/// Where the sum of the free counts is zero, every count is.
pub proof fn lemma_sum_zero(groups: Seq<BlockGroupDesc>, n: nat)
    requires
        n <= groups.len(),
    ensures
        sum_free_blocks(groups, n) == 0 <==> forall|g: int|
            0 <= g < n ==> (#[trigger] groups[g]).bg_free_blocks_count == 0,
        sum_free_inodes(groups, n) == 0 <==> forall|g: int|
            0 <= g < n ==> (#[trigger] groups[g]).bg_free_inodes_count == 0,
    decreases n,
{
    if n > 0 {
        lemma_sum_zero(groups, (n - 1) as nat);
        if forall|g: int| 0 <= g < n ==> (#[trigger] groups[g]).bg_free_blocks_count == 0 {
            assert(groups[n - 1].bg_free_blocks_count == 0);
        }
        if forall|g: int| 0 <= g < n ==> (#[trigger] groups[g]).bg_free_inodes_count == 0 {
            assert(groups[n - 1].bg_free_inodes_count == 0);
        }
    }
}

/// An ext2 file system on a block device, behind a block cache.
pub struct Ext2FileSystem<D: BlockDevice> {
    /// The device and the cache over it.
    pub manager: BlockCacheManager<D>,
    /// The superblock, as last read or changed.
    pub super_block: SuperBlock,
    /// The group descriptors, as last read or changed.
    pub group_desc_table: Vec<BlockGroupDesc>,
    /// Seconds since the epoch; stamps the changes that follow.
    pub cur_time: u32,
}

impl<D: BlockDevice> View for Ext2FileSystem<D> {
    type V = FsView;

    open spec fn view(&self) -> FsView {
        FsView {
            disk: self.manager.view(),
            super_block: self.super_block,
            groups: self.group_desc_table@,
            time: self.cur_time,
        }
    }
}

impl<D: BlockDevice> Ext2FileSystem<D> {
    /// Valid, and at rest: no block of the cache is held.
    pub open spec fn wf(&self) -> bool {
        self.manager.ready() && self@.wf()
    }

    /// Sets the time that the changes that follow are stamped with.
    pub fn set_time(&mut self, now: u32)
        requires
            old(self).wf(),
        ensures
            final(self).wf(),
            final(self)@ == (FsView { time: now, ..old(self)@ }),
            final(self).manager == old(self).manager,
    {
        self.cur_time = now;
        proof {
            old(self)@.lemma_frame(self@);
        }
    }

    /// Where inode `inode_id` is stored: the block and the byte inside it.
    pub fn get_disk_inode_pos(&self, inode_id: u32) -> (pos: (u32, usize))
        requires
            self.wf(),
            1 <= inode_id <= self.super_block.s_inodes_count,
        ensures
            (pos.0 as int, pos.1 as int) == inode_pos(self@.groups, inode_id as int),
            pos.0 < self@.super_block.s_blocks_count,
            pos.1 + EXT2_GOOD_OLD_INODE_SIZE <= BLOCK_SIZE,
            !self@.is_bitmap(pos.0 as int),
            self@.is_meta(pos.0 as int),
    {
        proof {
            reveal(FsView::wf);
        }
        let id = inode_id - 1;
        let group_id = (id as usize) / INODES_PER_GRP;
        let group_offset = (id as usize) % INODES_PER_GRP;
        proof {
            self@.lemma_inode_pos(inode_id as int);
        }
        let table = self.group_desc_table[group_id].bg_inode_table;
        let block_id = table + (group_offset / INODES_PER_BLOCK) as u32;
        (block_id, (group_offset % INODES_PER_BLOCK) * EXT2_GOOD_OLD_INODE_SIZE)
    }

    /// The inode bitmap of group `group_id`; its first bit stands for the
    /// first inode of the group.
    pub fn get_inode_bitmap(&self, group_id: usize) -> (bitmap: Bitmap)
        requires
            self.wf(),
            group_id < self.group_desc_table@.len(),
        ensures
            bitmap.block_id == self@.groups[group_id as int].bg_inode_bitmap,
            bitmap.base == group_id * INODES_PER_GRP + 1,
    {
        proof {
            reveal(FsView::wf);
        }
        Bitmap::new(self.group_desc_table[group_id].bg_inode_bitmap as usize, group_id * INODES_PER_GRP + 1)
    }

    /// The block bitmap of group `group_id`; its first bit stands for the
    /// first block of the group.
    pub fn get_data_bitmap(&self, group_id: usize) -> (bitmap: Bitmap)
        requires
            self.wf(),
            group_id < self.group_desc_table@.len(),
        ensures
            bitmap.block_id == self@.groups[group_id as int].bg_block_bitmap,
            bitmap.base == group_id * BLOCKS_PER_GRP,
    {
        proof {
            reveal(FsView::wf);
        }
        Bitmap::new(self.group_desc_table[group_id].bg_block_bitmap as usize, group_id * BLOCKS_PER_GRP)
    }

    /// Whether files may keep data or block pointers in block `p`.
    pub fn is_data_block(&self, p: u32) -> (ok: bool)
        requires
            self.wf(),
        ensures
            ok == self@.is_data(p as int),
    {
        proof {
            reveal(FsView::wf);
        }
        if p >= self.super_block.s_blocks_count {
            return false;
        }
        let groups = self.group_desc_table.len();
        let g = (p as usize) / BLOCKS_PER_GRP;
        proof {
            self@.lemma_groups_apart(p as int);
        }
        let d = &self.group_desc_table[g];
        let head = 1 + (groups + DESCS_PER_BLOCK - 1) / DESCS_PER_BLOCK;
        !((p as usize) < head || p == d.bg_block_bitmap || p == d.bg_inode_bitmap || (d.bg_inode_table <= p
            && (p as usize) < d.bg_inode_table as usize + INODE_TABLE_BLOCKS))
    }

    /// The little-endian number at byte `off` of block `block`.
    pub fn read_u32(&mut self, block: usize, off: usize) -> (v: u32)
        requires
            old(self).wf(),
            block < old(self)@.disk.len(),
            off + 4 <= BLOCK_SIZE,
        ensures
            final(self).wf(),
            final(self)@ == old(self)@,
            v == le32(old(self)@.disk[block as int], off as int),
    {
        let bytes = self.manager.read_bytes(block, off, 4);
        assert(bytes@.subrange(0, 4) =~= old(self)@.disk[block as int].subrange(off as int, off + 4));
        get_u32(bytes.as_slice(), 0)
    }

    /// Writes `src` into block `block`, which is no bitmap, from `off` on.
    pub fn write_block_bytes(&mut self, block: usize, off: usize, src: &[u8])
        requires
            old(self).wf(),
            block < old(self)@.disk.len(),
            !old(self)@.is_bitmap(block as int),
            off + src@.len() <= BLOCK_SIZE,
        ensures
            final(self).wf(),
            final(self)@ == old(self)@.written(block as int, off as int, src@),
            old(self)@.same_geometry(final(self)@),
    {
        self.manager.write_bytes(block, off, src);
        proof {
            old(self)@.lemma_written_wf(block as int, off as int, src@);
        }
    }

    /// Takes the lowest free inode of the first group that has one, and
    /// counts it as used. Returns `None`, and changes nothing, where no
    /// inode is free.
    pub fn alloc_inode(&mut self) -> (r: Option<u32>)
        requires
            old(self).wf(),
        ensures
            final(self).wf(),
            old(self)@.same_geometry(final(self)@),
            r is None <==> old(self)@.super_block.s_free_inodes_count == 0,
            r matches Some(id) ==> old(self)@.took_inode(final(self)@, id as int),
            match r {
                None => final(self)@ == old(self)@,
                Some(id) => {
                    let g = (id - 1) / INODES_PER_GRP as int;
                    let bitmap = old(self)@.groups[g].bg_inode_bitmap as int;
                    &&& 1 <= id <= old(self)@.super_block.s_inodes_count
                    &&& old(self)@.groups[g].bg_free_inodes_count > 0
                    &&& !old(self)@.inode_used(id as int)
                    &&& forall|k: int| 1 <= k < id ==> old(self)@.inode_used(k)
                    &&& final(self)@.inode_used(id as int)
                    &&& bits_set(
                        old(self)@.disk[bitmap],
                        final(self)@.disk[bitmap],
                        (id - 1) % INODES_PER_GRP as int,
                        (id - 1) % INODES_PER_GRP as int + 1,
                    )
                    &&& final(self)@ == (FsView {
                        disk: old(self)@.disk.update(bitmap, final(self)@.disk[bitmap]),
                        super_block: SuperBlock {
                            s_free_inodes_count: (old(self)@.super_block.s_free_inodes_count - 1) as u32,
                            ..old(self)@.super_block
                        },
                        groups: old(self)@.groups.update(
                            g,
                            BlockGroupDesc {
                                bg_free_inodes_count: (old(self)@.groups[g].bg_free_inodes_count - 1) as u16,
                                ..old(self)@.groups[g]
                            },
                        ),
                        ..old(self)@
                    })
                },
            },
    {
        proof {
            reveal(FsView::wf);
        }
        let groups = self.group_desc_table.len();
        let mut group_id: usize = 0;
        while group_id < groups
            invariant
                self.wf(),
                self@ == old(self)@,
                groups == self.group_desc_table@.len(),
                group_id <= groups,
                forall|g: int| 0 <= g < group_id ==> full(#[trigger] self@.inode_bitmap(g)),
            decreases groups - group_id,
        {
            proof {
                reveal(FsView::wf);
            }
            let ghost v = self@;
            proof {
                assert(group_ok(
                    v.groups[group_id as int],
                    group_lo(v.groups.len() as int, group_id as int),
                    group_hi(v.super_block.s_blocks_count as int, group_id as int),
                ));
            }
            let bitmap = self.get_inode_bitmap(group_id);
            match bitmap.allocate(&mut self.manager) {
                Some(inode_id) => {
                    proof {
                        let g = group_id as int;
                        let i = inode_id - bitmap.base;
                        let before = v.inode_bitmap(g);
                        let after = self.manager.view()[bitmap.block_id as int];
                        lemma_count_set_one(before, after, i, BLOCK_BITS as nat);
                        lemma_count_bound(after, BLOCK_BITS as nat);
                        v.lemma_counts_bounded();
                        lemma_sum_bounds(v.groups, v.groups.len(), g);
                        assert(v.groups[g].bg_free_inodes_count == count_free(before));
                        assert((inode_id - 1) / INODES_PER_GRP as int == g);
                        assert((inode_id - 1) % INODES_PER_GRP as int == i);
                    }
                    let d = self.group_desc_table[group_id];
                    self.group_desc_table[group_id] = BlockGroupDesc {
                        bg_free_inodes_count: d.bg_free_inodes_count - 1,
                        ..d
                    };
                    self.super_block.s_free_inodes_count = self.super_block.s_free_inodes_count - 1;
                    proof {
                        let g = group_id as int;
                        let w = self@;
                        let i = inode_id - bitmap.base;
                        assert(w.disk =~= v.disk.update(bitmap.block_id as int, w.disk[bitmap.block_id as int]));
                        lemma_sum_update(v.groups, g, w.groups[g], v.groups.len());
                        lemma_sum_zero(v.groups, v.groups.len());
                        Self::lemma_bitmap_changed(v, w, bitmap.block_id as int);
                        assert forall|h: int| 0 <= h < w.groups.len() implies {
                            &&& (#[trigger] w.groups[h]).bg_free_blocks_count == count_free(w.block_bitmap(h))
                            &&& w.groups[h].bg_free_inodes_count == count_free(w.inode_bitmap(h))
                        } by {
                            assert(v.groups[h].bg_free_blocks_count == count_free(v.block_bitmap(h)));
                        }
                        assert forall|k: int| 1 <= k < inode_id implies v.inode_used(k) by {
                            let gk = (k - 1) / INODES_PER_GRP as int;
                            if gk < g {
                                assert(full(v.inode_bitmap(gk)));
                            }
                        }
                        v.lemma_one_inode_bit(w, inode_id as int, true);
                    }
                    return Some(inode_id as u32);
                },
                None => {
                    assert(self@ == v);
                },
            }
            group_id += 1;
        }
        proof {
            let v = self@;
            lemma_sum_zero(v.groups, v.groups.len());
            assert forall|g: int| 0 <= g < v.groups.len() implies (#[trigger] v.groups[g]).bg_free_inodes_count
                == 0 by {
                lemma_count_full(v.inode_bitmap(g), BLOCK_BITS as nat);
                assert(full(v.inode_bitmap(g)));
            }
        }
        None
    }

    /// Takes the lowest free block of the first group that has one, and
    /// counts it as used. Returns `None`, and changes nothing, where no
    /// block is free. A block that is handed out is one for data.
    pub fn alloc_data(&mut self) -> (r: Option<u32>)
        requires
            old(self).wf(),
        ensures
            final(self).wf(),
            old(self)@.same_geometry(final(self)@),
            r is None <==> old(self)@.super_block.s_free_blocks_count == 0,
            r matches Some(id) ==> old(self)@.took_block(final(self)@, id as int),
            match r {
                None => final(self)@ == old(self)@,
                Some(id) => {
                    let g = id as int / BLOCKS_PER_GRP as int;
                    let bitmap = old(self)@.groups[g].bg_block_bitmap as int;
                    &&& old(self)@.is_data(id as int)
                    &&& old(self)@.groups[g].bg_free_blocks_count > 0
                    &&& !old(self)@.block_used(id as int)
                    &&& forall|k: int| 0 <= k < id ==> old(self)@.block_used(k)
                    &&& final(self)@.block_used(id as int)
                    &&& bits_set(
                        old(self)@.disk[bitmap],
                        final(self)@.disk[bitmap],
                        id as int % BLOCKS_PER_GRP as int,
                        id as int % BLOCKS_PER_GRP as int + 1,
                    )
                    &&& final(self)@ == (FsView {
                        disk: old(self)@.disk.update(bitmap, final(self)@.disk[bitmap]),
                        super_block: SuperBlock {
                            s_free_blocks_count: (old(self)@.super_block.s_free_blocks_count - 1) as u32,
                            ..old(self)@.super_block
                        },
                        groups: old(self)@.groups.update(
                            g,
                            BlockGroupDesc {
                                bg_free_blocks_count: (old(self)@.groups[g].bg_free_blocks_count - 1) as u16,
                                ..old(self)@.groups[g]
                            },
                        ),
                        ..old(self)@
                    })
                },
            },
    {
        proof {
            reveal(FsView::wf);
        }
        let groups = self.group_desc_table.len();
        let mut group_id: usize = 0;
        while group_id < groups
            invariant
                self.wf(),
                self@ == old(self)@,
                groups == self.group_desc_table@.len(),
                group_id <= groups,
                forall|g: int| 0 <= g < group_id ==> full(#[trigger] self@.block_bitmap(g)),
            decreases groups - group_id,
        {
            proof {
                reveal(FsView::wf);
            }
            let ghost v = self@;
            proof {
                assert(group_ok(
                    v.groups[group_id as int],
                    group_lo(v.groups.len() as int, group_id as int),
                    group_hi(v.super_block.s_blocks_count as int, group_id as int),
                ));
            }
            let bitmap = self.get_data_bitmap(group_id);
            match bitmap.allocate(&mut self.manager) {
                Some(block_id) => {
                    proof {
                        let g = group_id as int;
                        let i = block_id - bitmap.base;
                        let before = v.block_bitmap(g);
                        let after = self.manager.view()[bitmap.block_id as int];
                        lemma_count_set_one(before, after, i, BLOCK_BITS as nat);
                        lemma_count_bound(after, BLOCK_BITS as nat);
                        v.lemma_counts_bounded();
                        lemma_sum_bounds(v.groups, v.groups.len(), g);
                        assert(v.groups[g].bg_free_blocks_count == count_free(before));
                        assert(block_id as int / BLOCKS_PER_GRP as int == g);
                        assert(block_id as int % BLOCKS_PER_GRP as int == i);
                        assert(!v.block_used(block_id as int));
                        assert(v.is_data(block_id as int));
                    }
                    let d = self.group_desc_table[group_id];
                    self.group_desc_table[group_id] = BlockGroupDesc {
                        bg_free_blocks_count: d.bg_free_blocks_count - 1,
                        ..d
                    };
                    self.super_block.s_free_blocks_count = self.super_block.s_free_blocks_count - 1;
                    proof {
                        let g = group_id as int;
                        let w = self@;
                        assert(w.disk =~= v.disk.update(bitmap.block_id as int, w.disk[bitmap.block_id as int]));
                        lemma_sum_update(v.groups, g, w.groups[g], v.groups.len());
                        lemma_sum_zero(v.groups, v.groups.len());
                        Self::lemma_bitmap_changed(v, w, bitmap.block_id as int);
                        assert forall|h: int| 0 <= h < w.groups.len() implies {
                            &&& (#[trigger] w.groups[h]).bg_free_blocks_count == count_free(w.block_bitmap(h))
                            &&& w.groups[h].bg_free_inodes_count == count_free(w.inode_bitmap(h))
                        } by {
                            assert(v.groups[h].bg_free_blocks_count == count_free(v.block_bitmap(h)));
                        }
                        assert forall|k: int| 0 <= k < block_id implies v.block_used(k) by {
                            let gk = k / BLOCKS_PER_GRP as int;
                            if gk < g {
                                assert(full(v.block_bitmap(gk)));
                            }
                        }
                        v.lemma_one_bit(w, block_id as int, true);
                    }
                    return Some(block_id as u32);
                },
                None => {
                    assert(self@ == v);
                },
            }
            group_id += 1;
        }
        proof {
            let v = self@;
            lemma_sum_zero(v.groups, v.groups.len());
            assert forall|g: int| 0 <= g < v.groups.len() implies (#[trigger] v.groups[g]).bg_free_blocks_count
                == 0 by {
                lemma_count_full(v.block_bitmap(g), BLOCK_BITS as nat);
                assert(full(v.block_bitmap(g)));
            }
        }
        None
    }

    /// Gives inode `inode_id` back: clears its bit and counts it as free.
    /// Fails with `Corruption`, and changes nothing, where the inode was
    /// not marked as used.
    pub fn dealloc_inode(&mut self, inode_id: u32) -> (r: Result<(), Ext2Error>)
        requires
            old(self).wf(),
            1 <= inode_id <= old(self)@.super_block.s_inodes_count,
        ensures
            final(self).wf(),
            old(self)@.same_geometry(final(self)@),
            r is Ok <==> old(self)@.inode_used(inode_id as int),
            r is Ok ==> old(self)@.gave_inode(final(self)@, inode_id as int),
            match r {
                Err(e) => e == Ext2Error::Corruption && final(self)@ == old(self)@,
                Ok(_) => {
                    let g = (inode_id - 1) / INODES_PER_GRP as int;
                    let bitmap = old(self)@.groups[g].bg_inode_bitmap as int;
                    &&& bit_cleared(
                        old(self)@.disk[bitmap],
                        final(self)@.disk[bitmap],
                        (inode_id - 1) % INODES_PER_GRP as int,
                    )
                    &&& old(self)@.super_block.s_free_inodes_count < u32::MAX
                    &&& old(self)@.groups[g].bg_free_inodes_count < BLOCK_BITS
                    &&& final(self)@ == (FsView {
                        disk: old(self)@.disk.update(bitmap, final(self)@.disk[bitmap]),
                        super_block: SuperBlock {
                            s_free_inodes_count: (old(self)@.super_block.s_free_inodes_count + 1) as u32,
                            ..old(self)@.super_block
                        },
                        groups: old(self)@.groups.update(
                            g,
                            BlockGroupDesc {
                                bg_free_inodes_count: (old(self)@.groups[g].bg_free_inodes_count + 1) as u16,
                                ..old(self)@.groups[g]
                            },
                        ),
                        ..old(self)@
                    })
                },
            },
    {
        proof {
            reveal(FsView::wf);
        }
        let group_id = (inode_id as usize - 1) / INODES_PER_GRP;
        let ghost v = self@;
        proof {
            assert(group_ok(
                v.groups[group_id as int],
                group_lo(v.groups.len() as int, group_id as int),
                group_hi(v.super_block.s_blocks_count as int, group_id as int),
            ));
        }
        let bitmap = self.get_inode_bitmap(group_id);
        if !bitmap.dealloc(&mut self.manager, inode_id as usize) {
            return Err(Ext2Error::Corruption);
        }
        proof {
            let g = group_id as int;
            let i = inode_id - bitmap.base;
            let before = v.inode_bitmap(g);
            let after = self.manager.view()[bitmap.block_id as int];
            lemma_count_clear_one(before, after, i, BLOCK_BITS as nat);
            lemma_count_bound(before, BLOCK_BITS as nat);
            lemma_count_bound(after, BLOCK_BITS as nat);
            v.lemma_counts_bounded();
            lemma_sum_bounds(v.groups, v.groups.len(), g);
            assert(v.groups[g].bg_free_inodes_count == count_free(before));
        }
        let d = self.group_desc_table[group_id];
        self.group_desc_table[group_id] = BlockGroupDesc { bg_free_inodes_count: d.bg_free_inodes_count + 1, ..d };
        self.super_block.s_free_inodes_count = self.super_block.s_free_inodes_count + 1;
        proof {
            let g = group_id as int;
            let w = self@;
            assert(w.disk =~= v.disk.update(bitmap.block_id as int, w.disk[bitmap.block_id as int]));
            lemma_sum_update(v.groups, g, w.groups[g], v.groups.len());
            Self::lemma_inode_bitmap_changed(v, w, g);
            assert forall|h: int| 0 <= h < w.groups.len() implies {
                &&& (#[trigger] w.groups[h]).bg_free_blocks_count == count_free(w.block_bitmap(h))
                &&& w.groups[h].bg_free_inodes_count == count_free(w.inode_bitmap(h))
            } by {
                assert(v.groups[h].bg_free_blocks_count == count_free(v.block_bitmap(h)));
            }
            v.lemma_one_inode_bit(w, inode_id as int, false);
        }
        Ok(())
    }

    /// Gives the data block `block_id` back: clears its bit, counts it as
    /// free and fills it with zeros. Fails with `Corruption`, and changes
    /// nothing, where the block is not one for data or was not marked as
    /// used.
    pub fn dealloc_block(&mut self, block_id: u32) -> (r: Result<(), Ext2Error>)
        requires
            old(self).wf(),
        ensures
            final(self).wf(),
            old(self)@.same_geometry(final(self)@),
            r is Ok <==> old(self)@.is_data(block_id as int) && old(self)@.block_used(block_id as int),
            r is Ok ==> old(self)@.gave_block(final(self)@, block_id as int),
            match r {
                Err(e) => e == Ext2Error::Corruption && final(self)@ == old(self)@,
                Ok(_) => {
                    let g = block_id as int / BLOCKS_PER_GRP as int;
                    let bitmap = old(self)@.groups[g].bg_block_bitmap as int;
                    &&& bit_cleared(
                        old(self)@.disk[bitmap],
                        final(self)@.disk[bitmap],
                        block_id as int % BLOCKS_PER_GRP as int,
                    )
                    &&& old(self)@.super_block.s_free_blocks_count < u32::MAX
                    &&& old(self)@.groups[g].bg_free_blocks_count < BLOCK_BITS
                    &&& final(self)@ == (FsView {
                        disk: old(self)@.disk.update(bitmap, final(self)@.disk[bitmap]).update(
                            block_id as int,
                            zeros(BLOCK_SIZE as nat),
                        ),
                        super_block: SuperBlock {
                            s_free_blocks_count: (old(self)@.super_block.s_free_blocks_count + 1) as u32,
                            ..old(self)@.super_block
                        },
                        groups: old(self)@.groups.update(
                            g,
                            BlockGroupDesc {
                                bg_free_blocks_count: (old(self)@.groups[g].bg_free_blocks_count + 1) as u16,
                                ..old(self)@.groups[g]
                            },
                        ),
                        ..old(self)@
                    })
                },
            },
    {
        proof {
            reveal(FsView::wf);
        }
        if !self.is_data_block(block_id) {
            return Err(Ext2Error::Corruption);
        }
        let group_id = block_id as usize / BLOCKS_PER_GRP;
        let ghost v = self@;
        proof {
            v.lemma_groups_apart(block_id as int);
            assert(group_ok(
                v.groups[group_id as int],
                group_lo(v.groups.len() as int, group_id as int),
                group_hi(v.super_block.s_blocks_count as int, group_id as int),
            ));
        }
        let bitmap = self.get_data_bitmap(group_id);
        if !bitmap.dealloc(&mut self.manager, block_id as usize) {
            return Err(Ext2Error::Corruption);
        }
        let ghost mid = self.manager.view();
        let zero = zeroed(BLOCK_SIZE);
        self.manager.write_bytes(block_id as usize, 0, zero.as_slice());
        proof {
            let g = group_id as int;
            let i = block_id - bitmap.base;
            let before = v.block_bitmap(g);
            let after = mid[bitmap.block_id as int];
            lemma_count_clear_one(before, after, i, BLOCK_BITS as nat);
            lemma_count_bound(before, BLOCK_BITS as nat);
            lemma_count_bound(after, BLOCK_BITS as nat);
            v.lemma_counts_bounded();
            lemma_sum_bounds(v.groups, v.groups.len(), g);
            assert(v.groups[g].bg_free_blocks_count == count_free(before));
            assert(patch(mid[block_id as int], 0, zero@) =~= zeros(BLOCK_SIZE as nat));
        }
        let d = self.group_desc_table[group_id];
        self.group_desc_table[group_id] = BlockGroupDesc { bg_free_blocks_count: d.bg_free_blocks_count + 1, ..d };
        self.super_block.s_free_blocks_count = self.super_block.s_free_blocks_count + 1;
        proof {
            let g = group_id as int;
            let w = self@;
            let m = FsView {
                disk: mid,
                ..w
            };
            assert(mid =~= v.disk.update(bitmap.block_id as int, mid[bitmap.block_id as int]));
            assert(w.disk =~= v.disk.update(bitmap.block_id as int, mid[bitmap.block_id as int]).update(
                block_id as int,
                zeros(BLOCK_SIZE as nat),
            ));
            assert(w.disk[bitmap.block_id as int] == mid[bitmap.block_id as int]);
            lemma_sum_update(v.groups, g, w.groups[g], v.groups.len());
            Self::lemma_block_bit_cleared(v, m, block_id as int);
            assert forall|h: int| 0 <= h < m.groups.len() implies {
                &&& (#[trigger] m.groups[h]).bg_free_blocks_count == count_free(m.block_bitmap(h))
                &&& m.groups[h].bg_free_inodes_count == count_free(m.inode_bitmap(h))
            } by {
                assert(v.groups[h].bg_free_blocks_count == count_free(v.block_bitmap(h)));
            }
            assert(m.wf());
            assert(!m.is_bitmap(block_id as int)) by {
                assert(forall|h: int| 0 <= h < v.groups.len() ==> (#[trigger] m.groups[h]).bg_block_bitmap
                    == v.groups[h].bg_block_bitmap && m.groups[h].bg_inode_bitmap == v.groups[h].bg_inode_bitmap);
            }
            m.lemma_written_wf(block_id as int, 0, zero@);
            assert(w.disk =~= m.written(block_id as int, 0, zero@).disk);
            v.lemma_one_bit(m, block_id as int, false);
            m.lemma_written_marks(block_id as int, 0, zero@);
            assert(w == m.written(block_id as int, 0, zero@));
        }
        Ok(())
    }

    /// Writes the superblock to its place on disk.
    pub fn write_super_block(&mut self)
        requires
            old(self).wf(),
        ensures
            final(self).wf(),
            final(self)@ == old(self)@.written(
                0,
                SUPER_BLOCK_OFFSET as int,
                old(self)@.super_block.store(
                    old(self)@.disk[0].subrange(SUPER_BLOCK_OFFSET as int, SUPER_BLOCK_OFFSET + SUPER_BLOCK_SIZE),
                ),
            ),
            final(self)@.disk_super_block() == final(self)@.super_block,
            forall|g: int| 0 <= g < old(self)@.groups.len() ==> #[trigger] final(self)@.disk_group_desc(g) == old(self)@.disk_group_desc(g),
            old(self)@.same_geometry(final(self)@),
    {
        proof {
            reveal(FsView::wf);
        }
        proof {
            self@.lemma_low_blocks(0);
        }
        let mut region = self.manager.read_bytes(0, SUPER_BLOCK_OFFSET, SUPER_BLOCK_SIZE);
        let ghost before = region@;
        self.super_block.to_bytes(&mut region);
        self.manager.write_bytes(0, SUPER_BLOCK_OFFSET, region.as_slice());
        proof {
            old(self)@.lemma_written_wf(0, SUPER_BLOCK_OFFSET as int, region@);
            self.super_block.lemma_store_parse(before);
            crate::codec::lemma_patch_read(old(self)@.disk[0], SUPER_BLOCK_OFFSET as int, region@);
        }
    }

    /// Writes the descriptor of group `group_id` to its place on disk.
    pub fn write_group_desc(&mut self, group_id: usize)
        requires
            old(self).wf(),
            group_id < old(self)@.groups.len(),
        ensures
            final(self).wf(),
            final(self)@ == old(self)@.desc_written(group_id as int),
            old(self)@.same_geometry(final(self)@),
    {
        let block_id = 1 + group_id / DESCS_PER_BLOCK;
        let offset = (group_id % DESCS_PER_BLOCK) * GROUP_DESC_SIZE;
        proof {
            self@.lemma_low_blocks(block_id as int);
        }
        let mut region = self.manager.read_bytes(block_id, offset, GROUP_DESC_SIZE);
        self.group_desc_table[group_id].to_bytes(&mut region);
        self.manager.write_bytes(block_id, offset, region.as_slice());
        proof {
            old(self)@.lemma_written_wf(block_id as int, offset as int, region@);
        }
    }

    /// Writes every group descriptor to its place on disk.
    pub fn write_all_group_desc(&mut self)
        requires
            old(self).wf(),
        ensures
            final(self).wf(),
            final(self)@ == old(self)@.descs_written(old(self)@.groups.len()),
            old(self)@.same_geometry(final(self)@),
    {
        let n = self.group_desc_table.len();
        let mut group_id: usize = 0;
        while group_id < n
            invariant
                self.wf(),
                n == self@.groups.len(),
                group_id <= n,
                old(self)@.same_geometry(self@),
                self@ == old(self)@.descs_written(group_id as nat),
            decreases n - group_id,
        {
            self.write_group_desc(group_id);
            group_id += 1;
        }
    }

    /// Writes the superblock and every group descriptor to disk: afterwards
    /// the disk holds them as memory does.
    pub fn write_meta(&mut self)
        requires
            old(self).wf(),
        ensures
            final(self).wf(),
            final(self)@ == old(self)@.written(
                0,
                SUPER_BLOCK_OFFSET as int,
                old(self)@.super_block.store(
                    old(self)@.disk[0].subrange(SUPER_BLOCK_OFFSET as int, SUPER_BLOCK_OFFSET + SUPER_BLOCK_SIZE),
                ),
            ).descs_written(old(self)@.groups.len()),
            final(self)@.meta_on_disk(),
            old(self)@.same_geometry(final(self)@),
            final(self)@.super_block == old(self)@.super_block,
            final(self)@.groups == old(self)@.groups,
            final(self)@.time == old(self)@.time,
            final(self)@.boot() == old(self)@.boot(),
            forall|b: int|
                1 + desc_block_count(old(self)@.groups.len() as int) <= b < old(self)@.disk.len()
                    ==> #[trigger] final(self)@.disk[b] == old(self)@.disk[b],
    {
        self.write_super_block();
        let ghost mid = self@;
        self.write_all_group_desc();
        proof {
            mid.lemma_descs_written(mid.groups.len());
            old(self)@.lemma_blocks();
            old(self)@.lemma_low_blocks(0);
            crate::codec::lemma_patch_frame(
                old(self)@.disk[0],
                SUPER_BLOCK_OFFSET as int,
                old(self)@.super_block.store(
                    old(self)@.disk[0].subrange(SUPER_BLOCK_OFFSET as int, SUPER_BLOCK_OFFSET + SUPER_BLOCK_SIZE),
                ),
                0,
                SUPER_BLOCK_OFFSET as int,
            );
        }
    }

    /// A handle on the inode `inode_id`; `None` where the file system has
    /// no inode of that number.
    pub fn get_inode(&mut self, inode_id: usize) -> (r: Option<Inode>)
        requires
            old(self).wf(),
        ensures
            final(self).wf(),
            final(self)@ == old(self)@,
            r is Some <==> 1 <= inode_id <= old(self)@.super_block.s_inodes_count,
            r matches Some(inode) ==> {
                &&& inode.valid(old(self)@)
                &&& inode.inode_id == inode_id
                &&& inode.file_type == inode.inode(old(self)@).spec_file_code()
            },
    {
        if inode_id == 0 || inode_id > self.super_block.s_inodes_count as usize {
            None
        } else {
            let (block_id, offset) = self.get_disk_inode_pos(inode_id as u32);
            Some(Inode::new(self, inode_id, block_id as usize, offset))
        }
    }

    /// A handle on the root directory.
    pub fn root_inode(&mut self) -> (root: Inode)
        requires
            old(self).wf(),
        ensures
            final(self).wf(),
            final(self)@ == old(self)@,
            root.valid(old(self)@),
            root.inode_id == EXT2_ROOT_INO,
            root.file_type == root.inode(old(self)@).spec_file_code(),
    {
        proof {
            reveal(FsView::wf);
        }
        let (block_id, offset) = self.get_disk_inode_pos(EXT2_ROOT_INO as u32);
        Inode::new(self, EXT2_ROOT_INO, block_id as usize, offset)
    }

    /// The inode stored at byte `offset` of block `block_id`.
    pub fn read_disk_inode(&mut self, block_id: usize, offset: usize) -> (inode: DiskInode)
        requires
            old(self).wf(),
            block_id < old(self)@.disk.len(),
            offset + EXT2_GOOD_OLD_INODE_SIZE <= BLOCK_SIZE,
        ensures
            final(self).wf(),
            final(self)@ == old(self)@,
            inode == old(self)@.disk_inode(block_id as int, offset as int),
    {
        let region = self.manager.read_bytes(block_id, offset, EXT2_GOOD_OLD_INODE_SIZE);
        DiskInode::from_bytes(region.as_slice())
    }

    /// Stores `inode` at byte `offset` of block `block_id`, which is no
    /// bitmap. The block pointers that stand there stay.
    pub fn write_disk_inode(&mut self, block_id: usize, offset: usize, inode: &DiskInode)
        requires
            old(self).wf(),
            block_id < old(self)@.disk.len(),
            !old(self)@.is_bitmap(block_id as int),
            offset + EXT2_GOOD_OLD_INODE_SIZE <= BLOCK_SIZE,
        ensures
            final(self).wf(),
            final(self)@ == old(self)@.inode_written(block_id as int, offset as int, *inode),
            final(self)@.disk_inode(block_id as int, offset as int) == *inode,
            old(self)@.same_geometry(final(self)@),
    {
        let mut region = self.manager.read_bytes(block_id, offset, EXT2_GOOD_OLD_INODE_SIZE);
        let ghost before = region@;
        inode.to_bytes(&mut region);
        self.manager.write_bytes(block_id, offset, region.as_slice());
        proof {
            old(self)@.lemma_written_wf(block_id as int, offset as int, region@);
            inode.lemma_store_parse(before);
            crate::codec::lemma_patch_read(old(self)@.disk[block_id as int], offset as int, region@);
        }
    }

    /// A change of the inode bitmap of group `g` leaves the block bitmaps
    /// and the other inode bitmaps as they were.
    pub proof fn lemma_inode_bitmap_changed(v: FsView, w: FsView, g: int)
        requires
            v.wf(),
            0 <= g < v.groups.len(),
            w.disk == v.disk.update(v.groups[g].bg_inode_bitmap as int, w.disk[v.groups[g].bg_inode_bitmap as int]),
            w.disk[v.groups[g].bg_inode_bitmap as int].len() == BLOCK_SIZE,
            v.same_geometry(w),
        ensures
            w.geometry_ok(),
            w.reserved_marked(),
            forall|h: int| 0 <= h < v.groups.len() ==> w.block_bitmap(h) == v.block_bitmap(h),
            forall|h: int| 0 <= h < v.groups.len() && h != g ==> w.inode_bitmap(h) == v.inode_bitmap(h),
    {
        reveal(FsView::wf);
        let block = v.groups[g].bg_inode_bitmap as int;
        assert forall|h: int| 0 <= h < w.groups.len() implies group_ok(
            #[trigger] w.groups[h],
            group_lo(w.groups.len() as int, h),
            group_hi(w.super_block.s_blocks_count as int, h),
        ) && v.groups[h].bg_block_bitmap != block && (h != g ==> v.groups[h].bg_inode_bitmap != block) by {
            assert(group_ok(
                v.groups[h],
                group_lo(v.groups.len() as int, h),
                group_hi(v.super_block.s_blocks_count as int, h),
            ));
            assert(group_ok(
                v.groups[g],
                group_lo(v.groups.len() as int, g),
                group_hi(v.super_block.s_blocks_count as int, g),
            ));
        }
        assert forall|p: int| 0 <= p < w.groups.len() * BLOCKS_PER_GRP && !w.is_data(p) implies #[trigger] w.block_used(p) by {
            let h = p / BLOCKS_PER_GRP as int;
            assert(0 <= h < v.groups.len());
            assert(w.groups[h].bg_block_bitmap == v.groups[h].bg_block_bitmap);
            assert(!v.is_data(p));
            assert(v.block_used(p));
        }
    }

    /// Clearing the bit of a data block leaves every block that is not for
    /// data marked, and the other bitmaps as they were.
    pub proof fn lemma_block_bit_cleared(v: FsView, w: FsView, p: int)
        requires
            v.wf(),
            v.is_data(p),
            v.same_geometry(w),
            ({
                let bitmap = v.groups[p / BLOCKS_PER_GRP as int].bg_block_bitmap as int;
                &&& w.disk == v.disk.update(bitmap, w.disk[bitmap])
                &&& bit_cleared(v.disk[bitmap], w.disk[bitmap], p % BLOCKS_PER_GRP as int)
            }),
        ensures
            w.geometry_ok(),
            w.reserved_marked(),
            forall|h: int| 0 <= h < v.groups.len() && h != p / BLOCKS_PER_GRP as int ==> w.block_bitmap(h) == v.block_bitmap(h),
            forall|h: int| 0 <= h < v.groups.len() ==> w.inode_bitmap(h) == v.inode_bitmap(h),
    {
        reveal(FsView::wf);
        let g = p / BLOCKS_PER_GRP as int;
        v.lemma_groups_apart(p);
        let block = v.groups[g].bg_block_bitmap as int;
        assert forall|h: int| 0 <= h < w.groups.len() implies group_ok(
            #[trigger] w.groups[h],
            group_lo(w.groups.len() as int, h),
            group_hi(w.super_block.s_blocks_count as int, h),
        ) && v.groups[h].bg_inode_bitmap != block && (h != g ==> v.groups[h].bg_block_bitmap != block) by {
            assert(group_ok(
                v.groups[h],
                group_lo(v.groups.len() as int, h),
                group_hi(v.super_block.s_blocks_count as int, h),
            ));
            assert(group_ok(
                v.groups[g],
                group_lo(v.groups.len() as int, g),
                group_hi(v.super_block.s_blocks_count as int, g),
            ));
        }
        assert forall|q: int| 0 <= q < w.groups.len() * BLOCKS_PER_GRP && !w.is_data(q) implies #[trigger] w.block_used(q) by {
            let h = q / BLOCKS_PER_GRP as int;
            assert(0 <= h < v.groups.len());
            assert(w.groups[h].bg_block_bitmap == v.groups[h].bg_block_bitmap);
            assert(w.groups[h].bg_inode_bitmap == v.groups[h].bg_inode_bitmap);
            assert(w.groups[h].bg_inode_table == v.groups[h].bg_inode_table);
            assert(!v.is_data(q));
            assert(v.block_used(q));
            if h == g {
                assert(q % BLOCKS_PER_GRP as int != p % BLOCKS_PER_GRP as int);
                assert(bit(w.disk[block], q % BLOCKS_PER_GRP as int) == bit(v.disk[block], q % BLOCKS_PER_GRP as int));
            }
        }
    }

    /// A change of one bitmap block leaves the other bitmaps, the geometry
    /// and the marks of the other groups as they were.
    pub proof fn lemma_bitmap_changed(v: FsView, w: FsView, block: int)
        requires
            v.wf(),
            v.is_bitmap(block),
            0 <= block < v.disk.len(),
            w.disk == v.disk.update(block, w.disk[block]),
            w.disk[block].len() == BLOCK_SIZE,
            w.groups.len() == v.groups.len(),
            w.super_block.s_magic == v.super_block.s_magic,
            w.super_block.s_block_group_nr == v.super_block.s_block_group_nr,
            w.super_block.s_inodes_count == v.super_block.s_inodes_count,
            w.super_block.s_first_data_block == v.super_block.s_first_data_block,
            w.super_block.s_blocks_count == v.super_block.s_blocks_count,
            forall|g: int|
                0 <= g < v.groups.len() ==> {
                    &&& (#[trigger] w.groups[g]).bg_block_bitmap == v.groups[g].bg_block_bitmap
                    &&& w.groups[g].bg_inode_bitmap == v.groups[g].bg_inode_bitmap
                    &&& w.groups[g].bg_inode_table == v.groups[g].bg_inode_table
                },
            forall|j: int| 0 <= j < BLOCK_BITS ==> bit(v.disk[block], j) ==> bit(w.disk[block], j),
        ensures
            w.geometry_ok(),
            w.reserved_marked(),
            forall|g: int|
                0 <= g < v.groups.len() && v.groups[g].bg_block_bitmap != block ==> w.block_bitmap(g)
                    == v.block_bitmap(g),
            forall|g: int|
                0 <= g < v.groups.len() && v.groups[g].bg_inode_bitmap != block ==> w.inode_bitmap(g)
                    == v.inode_bitmap(g),
    {
        reveal(FsView::wf);
        assert forall|g: int| 0 <= g < w.groups.len() implies group_ok(
            #[trigger] w.groups[g],
            group_lo(w.groups.len() as int, g),
            group_hi(w.super_block.s_blocks_count as int, g),
        ) by {
            assert(group_ok(
                v.groups[g],
                group_lo(v.groups.len() as int, g),
                group_hi(v.super_block.s_blocks_count as int, g),
            ));
        }
        assert forall|p: int| 0 <= p < w.groups.len() * BLOCKS_PER_GRP && !w.is_data(p) implies #[trigger] w.block_used(p) by {
            let g = p / BLOCKS_PER_GRP as int;
            assert(0 <= g < v.groups.len());
            assert(w.groups[g].bg_block_bitmap == v.groups[g].bg_block_bitmap);
            assert(w.groups[g].bg_inode_bitmap == v.groups[g].bg_inode_bitmap);
            assert(w.groups[g].bg_inode_table == v.groups[g].bg_inode_table);
            assert(!v.is_data(p));
            assert(v.block_used(p));
        }
    }
}

} // verus!
