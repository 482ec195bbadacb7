//! Making a file system on an empty device, and taking one up from a device
//! that holds one.
use vstd::prelude::*;
use vstd::string::StringSliceAdditionalSpecFns;
use crate::bitmap::{bit, count_free, count_set, lemma_count_bound, Bitmap, BLOCK_BITS};
use crate::block_cache::BlockCacheManager;
use crate::block_dev::BlockDevice;
use crate::block_map::blocks_between;
use crate::codec::{patch, zeroed, zeros};
use crate::config::{
    BLOCK_SIZE, BLOCKS_PER_GRP, EXT2_ROOT_INO, FAKE_CREATE_TIME, GROUP_DESC_SIZE, INODES_PER_GRP,
    RESERVED_BLOCKS_PER_GRP, SUPER_BLOCK_OFFSET, SUPER_BLOCK_SIZE,
};
use crate::dir::entry_bytes;
use crate::efs::{
    desc_block_count, desc_pos, group_hi, group_lo, group_ok, sum_free_blocks, sum_free_inodes,
    DESCS_PER_BLOCK, Ext2FileSystem, FsView, INODE_TABLE_BLOCKS, MAX_GROUPS,
};
use crate::error::Ext2Error;
use crate::layout::{BlockGroupDesc, EXT2_FT_DIR, EXT2_S_IFDIR, SB_MAGIC, SuperBlock};
use crate::vfs::{dot, dot_dot, lemma_dot_lookup};
use crate::vfs::Inode;

verus! {

/// The handle on the root directory of the file system `v`.
pub open spec fn root_of(v: FsView) -> Inode {
    Inode {
        inode_id: EXT2_ROOT_INO,
        block_id: crate::efs::inode_pos(v.groups, EXT2_ROOT_INO as int).0 as usize,
        block_offset: crate::efs::inode_pos(v.groups, EXT2_ROOT_INO as int).1 as usize,
        file_type: EXT2_FT_DIR,
    }
}

/// Inodes at the head of the first group that no file gets.
pub const RESERVED_INODES: usize = 10;

/// How a device is cut into groups.
#[derive(Clone, Copy, Debug, PartialEq, Eq, Structural)]
pub struct ImageLayout {
    /// Number of groups.
    pub groups: usize,
    /// Blocks that the file system uses.
    pub blocks: usize,
    /// Blocks of the last group.
    pub last: usize,
    /// Blocks behind the superblock that are kept for group descriptors.
    pub desc: usize,
}

impl ImageLayout {
    /// Blocks of group `g`.
    pub open spec fn group_size(self, g: int) -> int {
        if g == self.groups - 1 {
            self.last as int
        } else {
            BLOCKS_PER_GRP as int
        }
    }

    /// Blocks at the head of group `g` that hold the superblock and the
    /// descriptors.
    pub open spec fn head(self, g: int) -> int {
        if g == 0 {
            1 + self.desc
        } else {
            0
        }
    }

    /// The layout fits a device: the groups cover the blocks, and the last
    /// group has room for what it must hold.
    pub open spec fn ok(self) -> bool {
        &&& 1 <= self.groups <= MAX_GROUPS
        &&& RESERVED_BLOCKS_PER_GRP < self.last <= BLOCKS_PER_GRP
        &&& self.blocks == (self.groups - 1) * BLOCKS_PER_GRP + self.last
        &&& self.desc == (self.blocks * 32 + BLOCK_SIZE - 1) / BLOCK_SIZE as int
        &&& 1 + self.desc + RESERVED_BLOCKS_PER_GRP < self.group_size(0)
    }

    /// The descriptor of group `g` on a fresh image.
    pub open spec fn desc_of(self, g: int) -> BlockGroupDesc {
        let bitmap = g * BLOCKS_PER_GRP + self.head(g);
        BlockGroupDesc {
            bg_block_bitmap: bitmap as u32,
            bg_inode_bitmap: (bitmap + 1) as u32,
            bg_inode_table: (bitmap + 2) as u32,
            bg_free_blocks_count: (self.group_size(g) - self.head(g) - RESERVED_BLOCKS_PER_GRP) as u16,
            bg_free_inodes_count: (if g == 0 {
                INODES_PER_GRP - RESERVED_INODES
            } else {
                INODES_PER_GRP as int
            }) as u16,
            bg_used_dirs_count: 0,
            bg_pad: 0,
        }
    }

    /// The descriptors of a fresh image.
    pub open spec fn descs(self) -> Seq<BlockGroupDesc> {
        Seq::new(self.groups as nat, |g: int| self.desc_of(g))
    }

    /// The superblock of a fresh image.
    pub open spec fn super_block(self) -> SuperBlock {
        SuperBlock::fresh(
            (self.groups * INODES_PER_GRP) as u32,
            self.blocks as u32,
            (self.groups * INODES_PER_GRP - RESERVED_INODES) as u32,
            (self.blocks - self.groups * RESERVED_BLOCKS_PER_GRP - (1 + self.desc)) as u32,
            self.groups as u16,
            SuperBlock::volume_name_field(VOLUME_NAME.spec_bytes()),
        )
    }
}

/// The name that a fresh image gets.
pub const VOLUME_NAME: &'static str = "Image by hsh";

/// How a device of `n` blocks is cut into groups, if a file system fits on
/// it: a last group that would have no block beyond its bitmaps and inode
/// table is left out, and the first group must have a block left for the
/// root directory.
pub open spec fn layout_for(n: int) -> Option<ImageLayout> {
    let full = (n + BLOCKS_PER_GRP - 1) / BLOCKS_PER_GRP as int;
    let rest = n - (full - 1) * BLOCKS_PER_GRP;
    let groups = if rest <= RESERVED_BLOCKS_PER_GRP {
        full - 1
    } else {
        full
    };
    let last = if rest <= RESERVED_BLOCKS_PER_GRP {
        BLOCKS_PER_GRP as int
    } else {
        rest
    };
    let blocks = (groups - 1) * BLOCKS_PER_GRP + last;
    let desc = (blocks * 32 + BLOCK_SIZE - 1) / BLOCK_SIZE as int;
    let first = if groups == 1 {
        last
    } else {
        BLOCKS_PER_GRP as int
    };
    if 1 <= groups <= MAX_GROUPS && n >= 1 && 1 + desc + RESERVED_BLOCKS_PER_GRP < first {
        Some(ImageLayout { groups: groups as usize, blocks: blocks as usize, last: last as usize, desc: desc as usize })
    } else {
        None
    }
}

/// How a device of `block_num` blocks is cut into groups.
pub fn layout_of(block_num: usize) -> (r: Option<ImageLayout>)
    ensures
        r == layout_for(block_num as int),
        r matches Some(l) ==> l.ok() && l.blocks <= block_num,
{
    if block_num == 0 || block_num > MAX_GROUPS * BLOCKS_PER_GRP {
        return None;
    }
    let full = (block_num + BLOCKS_PER_GRP - 1) / BLOCKS_PER_GRP;
    let rest = block_num - (full - 1) * BLOCKS_PER_GRP;
    let mut groups = full;
    let mut last = rest;
    if rest <= RESERVED_BLOCKS_PER_GRP {
        groups = full - 1;
        last = BLOCKS_PER_GRP;
    }
    if groups < 1 {
        return None;
    }
    let blocks = (groups - 1) * BLOCKS_PER_GRP + last;
    let desc = ((blocks as u64 * 32 + 4095) / 4096) as usize;
    let first = if groups == 1 {
        last
    } else {
        BLOCKS_PER_GRP
    };
    if 1 + desc + RESERVED_BLOCKS_PER_GRP < first {
        Some(ImageLayout { groups, blocks, last, desc })
    } else {
        None
    }
}

/// The descriptors of a fresh image, and the sums of their free counts.
pub fn fresh_groups(l: &ImageLayout) -> (table: Vec<BlockGroupDesc>)
    requires
        l.ok(),
    ensures
        table@ == l.descs(),
        sum_free_blocks(table@, table@.len()) == l.blocks - l.groups * RESERVED_BLOCKS_PER_GRP - (1 + l.desc),
        sum_free_inodes(table@, table@.len()) == l.groups * INODES_PER_GRP - RESERVED_INODES,
{
    let mut table: Vec<BlockGroupDesc> = Vec::new();
    let mut group_id: usize = 0;
    while group_id < l.groups
        invariant
            l.ok(),
            group_id <= l.groups,
            table@.len() == group_id,
            forall|g: int| 0 <= g < group_id ==> #[trigger] table@[g] == l.desc_of(g),
            group_id > 0 ==> sum_free_blocks(table@, group_id as nat) == group_id * (BLOCKS_PER_GRP
                - RESERVED_BLOCKS_PER_GRP) - (1 + l.desc) - if group_id == l.groups {
                BLOCKS_PER_GRP - l.last
            } else {
                0
            },
            group_id == 0 ==> sum_free_blocks(table@, 0) == 0,
            sum_free_inodes(table@, group_id as nat) == if group_id == 0 {
                0
            } else {
                group_id * INODES_PER_GRP - RESERVED_INODES
            },
        decreases l.groups - group_id,
    {
        let head: usize = if group_id == 0 {
            1 + l.desc
        } else {
            0
        };
        let size: usize = if group_id == l.groups - 1 {
            l.last
        } else {
            BLOCKS_PER_GRP
        };
        let block_bitmap = BLOCKS_PER_GRP * group_id + head;
        let free_inodes = if group_id == 0 {
            INODES_PER_GRP - RESERVED_INODES
        } else {
            INODES_PER_GRP
        };
        let ghost before = table@;
        table.push(
            BlockGroupDesc::new(
                block_bitmap,
                block_bitmap + 1,
                block_bitmap + 2,
                size - head - RESERVED_BLOCKS_PER_GRP,
                free_inodes,
                0,
            ),
        );
        proof {
            lemma_sum_prefix(before, table@, group_id as nat);
        }
        group_id += 1;
    }
    assert(table@ =~= l.descs());
    table
}

/// The sums over the first `n` descriptors are those of any table that
/// starts with the same `n`.
pub proof fn lemma_sum_prefix(a: Seq<BlockGroupDesc>, b: Seq<BlockGroupDesc>, n: nat)
    requires
        n <= a.len(),
        n <= b.len(),
        forall|g: int| 0 <= g < n ==> a[g] == b[g],
    ensures
        sum_free_blocks(a, n) == sum_free_blocks(b, n),
        sum_free_inodes(a, n) == sum_free_inodes(b, n),
    decreases n,
{
    if n > 0 {
        lemma_sum_prefix(a, b, (n - 1) as nat);
    }
}

/// A disk on which nothing is kept but what a boot sector put into the first
/// 1024 bytes.
pub open spec fn wiped(disk: Seq<Seq<u8>>) -> Seq<Seq<u8>> {
    Seq::new(
        disk.len(),
        |b: int|
            if b == 0 {
                patch(disk[0], SUPER_BLOCK_OFFSET as int, zeros((BLOCK_SIZE - SUPER_BLOCK_OFFSET) as nat))
            } else {
                zeros(BLOCK_SIZE as nat)
            },
    )
}

/// Sets every byte of the disk to zero, but for the first 1024.
pub fn wipe<D: BlockDevice>(manager: &mut BlockCacheManager<D>)
    requires
        old(manager).ready(),
        old(manager).view().len() >= 1,
    ensures
        final(manager).ready(),
        final(manager).max_cache == old(manager).max_cache,
        final(manager).view() == wiped(old(manager).view()),
{
    proof {
        manager.model().lemma_view_len();
    }
    let n = manager.block_num();
    let tail = zeroed(BLOCK_SIZE - SUPER_BLOCK_OFFSET);
    manager.write_bytes(0, SUPER_BLOCK_OFFSET, tail.as_slice());
    let zero = zeroed(BLOCK_SIZE);
    let mut i: usize = 1;
    while i < n
        invariant
            manager.ready(),
            manager.max_cache == old(manager).max_cache,
            1 <= i <= n,
            n == manager.view().len(),
            n == old(manager).view().len(),
            zero@ == zeros(BLOCK_SIZE as nat),
            forall|b: int| 0 <= b < i ==> #[trigger] manager.view()[b] == wiped(old(manager).view())[b],
            forall|b: int| 0 <= b < n ==> (#[trigger] manager.view()[b]).len() == BLOCK_SIZE,
        decreases n - i,
    {
        manager.write_bytes(i, 0, zero.as_slice());
        proof {
            assert(patch(zeros(BLOCK_SIZE as nat), 0, zero@) =~= zeros(BLOCK_SIZE as nat));
            assert(manager.view()[i as int] =~= zeros(BLOCK_SIZE as nat));
        }
        i += 1;
    }
    assert(manager.view() =~= wiped(old(manager).view()));
}

/// Whether bit `j` of the block bitmap of group `g` is set on a fresh
/// image: the bits of the blocks that hold the superblock, the descriptors,
/// the bitmaps and the inode table, and those behind the end of the group.
pub open spec fn fresh_block_bit(l: ImageLayout, g: int, j: int) -> bool {
    j < l.head(g) + RESERVED_BLOCKS_PER_GRP || j >= l.group_size(g)
}

/// Whether bit `j` of the inode bitmap of group `g` is set on a fresh
/// image: the bits of the reserved inodes.
pub open spec fn fresh_inode_bit(g: int, j: int) -> bool {
    g == 0 && j < RESERVED_INODES
}

/// The bitmaps of the first `upto` groups are those of a fresh image.
pub open spec fn bitmaps_fresh(disk: Seq<Seq<u8>>, l: ImageLayout, upto: int) -> bool {
    forall|g: int, j: int|
        #![trigger bit(disk[l.desc_of(g).bg_block_bitmap as int], j)]
        #![trigger bit(disk[l.desc_of(g).bg_inode_bitmap as int], j)]
        0 <= g < upto && 0 <= j < BLOCK_BITS ==> {
            &&& bit(disk[l.desc_of(g).bg_block_bitmap as int], j) == fresh_block_bit(l, g, j)
            &&& bit(disk[l.desc_of(g).bg_inode_bitmap as int], j) == fresh_inode_bit(g, j)
        }
}

/// No bit of a block of zeros is set.
pub proof fn lemma_zero_bits(j: int)
    requires
        0 <= j < BLOCK_BITS,
    ensures
        !bit(zeros(BLOCK_SIZE as nat), j),
{
    let k = (j % 8) as u8;
    assert(k < 8 ==> !((0u8 >> k) & 1u8 == 1u8)) by (bit_vector);
}

/// In a bitmap whose set bits are those below `a` and those from `b` on,
/// so many of the first `n` bits are set.
pub proof fn lemma_count_ranges(block: Seq<u8>, a: int, b: int, n: nat)
    requires
        0 <= a <= b <= BLOCK_BITS,
        n <= BLOCK_BITS,
        forall|j: int| 0 <= j < BLOCK_BITS ==> bit(block, j) == (j < a || j >= b),
    ensures
        count_set(block, n) == (if n <= a {
            n as int
        } else {
            a
        }) + (if n <= b {
            0
        } else {
            n - b
        }),
    decreases n,
{
    if n > 0 {
        lemma_count_ranges(block, a, b, (n - 1) as nat);
    }
}

/// Marks, in the bitmaps of a wiped disk, what a fresh image has in use:
/// in every group the blocks up to the end of the inode table, in the last
/// group the blocks that the device does not have, and the reserved inodes.
pub fn mark_reserved<D: BlockDevice>(
    manager: &mut BlockCacheManager<D>,
    table: &Vec<BlockGroupDesc>,
    l: &ImageLayout,
)
    requires
        old(manager).ready(),
        l.ok(),
        table@ == l.descs(),
        l.blocks <= old(manager).view().len(),
        forall|b: int| 1 <= b < old(manager).view().len() ==> #[trigger] old(manager).view()[b] == zeros(
            BLOCK_SIZE as nat,
        ),
    ensures
        final(manager).ready(),
        final(manager).max_cache == old(manager).max_cache,
        final(manager).view().len() == old(manager).view().len(),
        final(manager).view()[0] == old(manager).view()[0],
        forall|b: int| 0 <= b < final(manager).view().len() ==> (#[trigger] final(manager).view()[b]).len() == BLOCK_SIZE,
        bitmaps_fresh(final(manager).view(), *l, l.groups as int),
{
    proof {
        manager.model().lemma_view_len();
    }
    let ghost v0 = manager.view();
    let mut group_id: usize = 0;
    while group_id < l.groups
        invariant
            manager.ready(),
            manager.max_cache == old(manager).max_cache,
            v0 == old(manager).view(),
            manager.view().len() == v0.len(),
            manager.view()[0] == v0[0],
            l.ok(),
            table@ == l.descs(),
            l.blocks <= v0.len(),
            group_id <= l.groups,
            forall|b: int| 0 <= b < v0.len() ==> (#[trigger] manager.view()[b]).len() == BLOCK_SIZE,
            forall|b: int|
                group_id * BLOCKS_PER_GRP <= b < v0.len() && b >= 1 ==> #[trigger] manager.view()[b] == zeros(
                    BLOCK_SIZE as nat,
                ),
            bitmaps_fresh(manager.view(), *l, group_id as int),
        decreases l.groups - group_id,
    {
        let ghost before = manager.view();
        let g = group_id;
        let d = table[g];
        assert(d == l.desc_of(g as int));
        let size: usize = if g == l.groups - 1 {
            l.last
        } else {
            BLOCKS_PER_GRP
        };
        let block_bitmap = d.bg_block_bitmap as usize;
        let bitmap = Bitmap::new(block_bitmap, g * BLOCKS_PER_GRP);
        bitmap.range_alloc(manager, g * BLOCKS_PER_GRP, block_bitmap + RESERVED_BLOCKS_PER_GRP);
        let ghost mid1 = manager.view();
        bitmap.range_alloc(manager, g * BLOCKS_PER_GRP + size, (g + 1) * BLOCKS_PER_GRP);
        let ghost mid2 = manager.view();
        if g == 0 {
            let inodes = Bitmap::new(d.bg_inode_bitmap as usize, 1);
            inodes.range_alloc(manager, 1, 1 + RESERVED_INODES);
        } else {
            // Nothing is marked; the call keeps the two cases alike.
            let inodes = Bitmap::new(d.bg_inode_bitmap as usize, g * INODES_PER_GRP + 1);
            inodes.range_alloc(manager, g * INODES_PER_GRP + 1, g * INODES_PER_GRP + 1);
        }
        proof {
            let after = manager.view();
            let bb = d.bg_block_bitmap as int;
            let ib = d.bg_inode_bitmap as int;
            assert(after[bb] == mid2[bb]);
            assert forall|j: int|
                #![trigger bit(after[bb], j)]
                #![trigger bit(after[ib], j)]
                0 <= j < BLOCK_BITS implies bit(after[bb], j) == fresh_block_bit(*l, g as int, j) && bit(
                after[ib],
                j,
            ) == fresh_inode_bit(g as int, j) by {
                lemma_zero_bits(j);
                assert(bit(mid1[bb], j) == (0 <= j < bb + RESERVED_BLOCKS_PER_GRP - g * BLOCKS_PER_GRP || bit(
                    before[bb],
                    j,
                )));
                assert(bit(mid2[bb], j) == (size <= j < BLOCKS_PER_GRP || bit(mid1[bb], j)));
                assert(before[ib] == zeros(BLOCK_SIZE as nat));
                assert(mid2[ib] == before[ib]);
            }
            assert forall|h: int, j: int|
                #![trigger bit(after[l.desc_of(h).bg_block_bitmap as int], j)]
                #![trigger bit(after[l.desc_of(h).bg_inode_bitmap as int], j)]
                0 <= h < g + 1 && 0 <= j < BLOCK_BITS implies {
                &&& bit(after[l.desc_of(h).bg_block_bitmap as int], j) == fresh_block_bit(*l, h, j)
                &&& bit(after[l.desc_of(h).bg_inode_bitmap as int], j) == fresh_inode_bit(h, j)
            } by {
                let bbh = l.desc_of(h).bg_block_bitmap as int;
                let ibh = l.desc_of(h).bg_inode_bitmap as int;
                assert(bbh == h * BLOCKS_PER_GRP + l.head(h));
                assert(ibh == bbh + 1);
                assert(bb == g * BLOCKS_PER_GRP + l.head(g as int));
                assert(ib == bb + 1);
                if h < g {
                    assert(bbh != bb && bbh != ib && ibh != bb && ibh != ib);
                    assert(mid1[bbh] == before[bbh] && mid1[ibh] == before[ibh]);
                    assert(mid2[bbh] == mid1[bbh] && mid2[ibh] == mid1[ibh]);
                    assert(after[bbh] == mid2[bbh] && after[ibh] == mid2[ibh]);
                    assert(bit(before[l.desc_of(h).bg_block_bitmap as int], j) == fresh_block_bit(*l, h, j));
                    assert(bit(before[l.desc_of(h).bg_inode_bitmap as int], j) == fresh_inode_bit(h, j));
                } else {
                    assert(h == g);
                    assert(bit(after[bb], j) == fresh_block_bit(*l, g as int, j));
                    assert(bit(after[ib], j) == fresh_inode_bit(g as int, j));
                }
            }
        }
        group_id += 1;
    }
}

impl ImageLayout {
    /// The file system that holds the descriptors and the superblock of a
    /// fresh image, on a disk whose bitmaps are those of one, is valid.
    pub proof fn lemma_fresh_wf(self, v: FsView)
        requires
            self.ok(),
            self.blocks <= v.disk.len(),
            v.super_block == self.super_block(),
            v.groups == self.descs(),
            bitmaps_fresh(v.disk, self, self.groups as int),
            forall|b: int| 0 <= b < v.disk.len() ==> (#[trigger] v.disk[b]).len() == BLOCK_SIZE,
            sum_free_blocks(v.groups, v.groups.len()) == self.blocks - self.groups * RESERVED_BLOCKS_PER_GRP - (1
                + self.desc),
            sum_free_inodes(v.groups, v.groups.len()) == self.groups * INODES_PER_GRP - RESERVED_INODES,
        ensures
            v.wf(),
    {
        reveal(FsView::wf);
        assert(desc_block_count(self.groups as int) <= self.desc);
        assert forall|g: int| 0 <= g < v.groups.len() implies group_ok(
            #[trigger] v.groups[g],
            group_lo(v.groups.len() as int, g),
            group_hi(v.super_block.s_blocks_count as int, g),
        ) by {
            assert(v.groups[g] == self.desc_of(g));
        }
        assert(v.geometry_ok());
        assert forall|p: int| 0 <= p < v.groups.len() * BLOCKS_PER_GRP && !v.is_data(p) implies #[trigger] v.block_used(
            p,
        ) by {
            let g = p / BLOCKS_PER_GRP as int;
            let j = p % BLOCKS_PER_GRP as int;
            assert(v.groups[g] == self.desc_of(g));
            assert(bit(v.disk[self.desc_of(g).bg_block_bitmap as int], j) == fresh_block_bit(self, g, j));
        }
        assert forall|g: int| 0 <= g < v.groups.len() implies {
            &&& (#[trigger] v.groups[g]).bg_free_blocks_count == count_free(v.block_bitmap(g))
            &&& v.groups[g].bg_free_inodes_count == count_free(v.inode_bitmap(g))
        } by {
            assert(v.groups[g] == self.desc_of(g));
            let bb = v.block_bitmap(g);
            let ib = v.inode_bitmap(g);
            assert forall|j: int| 0 <= j < BLOCK_BITS implies bit(bb, j) == (j < self.head(g)
                + RESERVED_BLOCKS_PER_GRP || j >= self.group_size(g)) by {
                assert(bit(v.disk[self.desc_of(g).bg_block_bitmap as int], j) == fresh_block_bit(self, g, j));
            }
            assert forall|j: int| 0 <= j < BLOCK_BITS implies bit(ib, j) == (j < (if g == 0 {
                RESERVED_INODES as int
            } else {
                0
            }) || j >= BLOCK_BITS) by {
                assert(bit(v.disk[self.desc_of(g).bg_inode_bitmap as int], j) == fresh_inode_bit(g, j));
            }
            lemma_count_ranges(bb, self.head(g) + RESERVED_BLOCKS_PER_GRP, self.group_size(g), BLOCK_BITS as nat);
            lemma_count_ranges(ib, if g == 0 {
                RESERVED_INODES as int
            } else {
                0
            }, BLOCK_BITS as int, BLOCK_BITS as nat);
        }
    }
}

/// The superblock of a fresh image.
pub fn fresh_super_block(l: &ImageLayout) -> (sb: SuperBlock)
    requires
        l.ok(),
    ensures
        sb == l.super_block(),
{
    proof {
        reveal_strlit("Image by hsh");
        vstd::string::is_ascii_spec_bytes(VOLUME_NAME);
    }
    SuperBlock::new(
        INODES_PER_GRP * l.groups,
        l.blocks,
        INODES_PER_GRP * l.groups - RESERVED_INODES,
        l.blocks - l.groups * RESERVED_BLOCKS_PER_GRP - (1 + l.desc),
        l.groups,
        VOLUME_NAME,
    )
}

impl<D: BlockDevice> Ext2FileSystem<D> {
    /// Writes every modified block of the cache to the device: afterwards
    /// the device holds the disk as readers see it.
    pub fn sync(&mut self)
        requires
            old(self).wf(),
        ensures
            final(self).wf(),
            final(self)@ == old(self)@,
            final(self).manager.device.blocks() == old(self)@.disk,
            final(self).manager.max_cache == old(self).manager.max_cache,
    {
        proof {
            self.manager.model().lemma_sync();
        }
        self.manager.sync_all_block();
    }

    /// Lays a fresh, valid file system without a root directory over the
    /// disk behind `manager`: wipes the disk but for the first 1024 bytes,
    /// and marks what is in use.
    pub fn format(manager: BlockCacheManager<D>, l: &ImageLayout) -> (fs: Self)
        requires
            manager.ready(),
            l.ok(),
            l.blocks <= manager.view().len(),
        ensures
            fs.wf(),
            fs@.super_block == l.super_block(),
            fs@.groups == l.descs(),
            fs@.time == FAKE_CREATE_TIME,
            fs@.disk.len() == manager.view().len(),
            fs.manager.max_cache == manager.max_cache,
            fs@.inode_used(EXT2_ROOT_INO as int),
            fs@.boot() == manager.view()[0].subrange(0, SUPER_BLOCK_OFFSET as int),
    {
        let ghost given = manager.view();
        let mut manager = manager;
        proof {
            manager.model().lemma_view_len();
        }
        wipe(&mut manager);
        proof {
            crate::codec::lemma_patch_frame(
                given[0],
                SUPER_BLOCK_OFFSET as int,
                zeros((BLOCK_SIZE - SUPER_BLOCK_OFFSET) as nat),
                0,
                SUPER_BLOCK_OFFSET as int,
            );
        }
        let table = fresh_groups(l);
        mark_reserved(&mut manager, &table, l);
        let super_block = fresh_super_block(l);
        let fs = Ext2FileSystem { manager, super_block, group_desc_table: table, cur_time: FAKE_CREATE_TIME as u32 };
        proof {
            l.lemma_fresh_wf(fs@);
            let v = fs@;
            assert(v.groups[0] == l.desc_of(0));
            assert(bit(v.disk[l.desc_of(0).bg_inode_bitmap as int], 1) == fresh_inode_bit(0, 1));
        }
        fs
    }

    /// Makes a file system on `block_device` and returns it, with a cache
    /// of at most `max_cache` blocks: cuts the device into groups, wipes
    /// it but for the first 1024 bytes, marks what is in use, makes the
    /// root directory with its entries `.` and `..`, and writes everything
    /// to the device. Fails with `InvalidData` where `max_cache` is zero,
    /// and with `NoSpace` where the device is too small, or too large for
    /// its descriptors to fit into the first group.
    pub fn create(block_device: D, max_cache: usize) -> (r: Result<Self, Ext2Error>)
        requires
            block_device.inv(),
        ensures
            r is Ok <==> max_cache > 0 && layout_for(block_device.blocks().len() as int) is Some,
            match r {
                Ok(fs) => {
                    &&& layout_for(block_device.blocks().len() as int) matches Some(l) && {
                        &&& fs@.groups.len() == l.groups
                        &&& fs@.super_block.s_blocks_count == l.blocks
                        &&& fs@.super_block.s_inodes_count == l.groups * INODES_PER_GRP
                        &&& fs@.super_block.s_free_inodes_count == l.groups * INODES_PER_GRP - RESERVED_INODES
                        &&& fs@.super_block.s_free_blocks_count == l.blocks - l.groups * RESERVED_BLOCKS_PER_GRP
                            - (1 + l.desc) - 1
                    }
                    &&& fs.wf()
                    &&& fs@.meta_on_disk()
                    &&& fs@.super_block.s_mnt_count == 0
                    &&& fs@.time == FAKE_CREATE_TIME
                    &&& fs@.disk.len() == block_device.blocks().len()
                    &&& fs.manager.device.blocks() == fs@.disk
                    &&& root_of(fs@).dir_sound(fs@)
                    &&& root_of(fs@).bytes(fs@) == entry_bytes(EXT2_ROOT_INO as u32, dot(), EXT2_FT_DIR)
                        + entry_bytes(EXT2_ROOT_INO as u32, dot_dot(), EXT2_FT_DIR)
                    &&& root_of(fs@).inode(fs@).i_links_count == 3
                    &&& fs@.boot() == block_device.blocks()[0].subrange(0, SUPER_BLOCK_OFFSET as int)
                },
                Err(e) => {
                    &&& e == Ext2Error::InvalidData <==> max_cache == 0
                    &&& e == Ext2Error::NoSpace <==> max_cache > 0
                },
            },
    {
        if max_cache == 0 {
            return Err(Ext2Error::InvalidData);
        }
        let block_num = block_device.block_num();
        let l = match layout_of(block_num) {
            Some(l) => l,
            None => {
                return Err(Ext2Error::NoSpace);
            },
        };
        let manager = BlockCacheManager::new(block_device, max_cache);
        proof {
            assert(manager.model().no_pins());
        }
        let mut fs = Self::format(manager, &l);
        let ghost v0 = fs@;
        fs.write_meta();
        fs.sync();
        let ghost v1 = fs@;
        proof {
            v1.lemma_blocks();
            v0.lemma_inode_mark_kept(v1, EXT2_ROOT_INO as int);
        }
        let root = Inode::init(&mut fs, EXT2_ROOT_INO as u32, EXT2_S_IFDIR);
        let ghost v2 = fs@;
        proof {
            reveal_with_fuel(blocks_between, 2);
            reveal_with_fuel(crate::block_map::nodes_added, 2);
            assert(blocks_between(0, 1) == 1);
            assert(root.can_take_dots(v2, root));
            v2.lemma_inode_pos(EXT2_ROOT_INO as int);
        }
        match root.link_dots(&mut fs, &root) {
            Ok(_) => {},
            Err(e) => {
                proof {
                    assert(false);
                }
                return Err(Ext2Error::NoSpace);
            },
        }
        let ghost v3 = fs@;
        fs.write_meta();
        let ghost v4 = fs@;
        fs.sync();
        proof {
            root.lemma_meta_written(v3, v4);
            v2.lemma_same_geometry(v3);
            v3.lemma_same_geometry(v4);
            assert(0x4000u16 & 0xF000u16 == 0x4000u16) by (bit_vector);
            assert(root.file_type == EXT2_FT_DIR);
            assert(root.inode_id == EXT2_ROOT_INO);
            assert(root.valid(v4));
            assert(root.block_id == root_of(v4).block_id);
            assert(root.block_offset == root_of(v4).block_offset);
            assert(root == root_of(v4));
            let m = EXT2_S_IFDIR;
            assert((0x1FFu16 | 0x4000u16) & 0xF000u16 == 0x4000u16) by (bit_vector);
            assert(root.inode(v2).spec_is_dir());
            lemma_dot_lookup(EXT2_ROOT_INO as u32, EXT2_ROOT_INO as u32);
            assert(root.bytes(v3) =~= entry_bytes(EXT2_ROOT_INO as u32, dot(), EXT2_FT_DIR) + entry_bytes(
                EXT2_ROOT_INO as u32,
                dot_dot(),
                EXT2_FT_DIR,
            ));
        }
        Ok(fs)
    }
}

/// The file system that the disk `disk` holds: the superblock and the
/// descriptors are those that are stored on it.
pub open spec fn image_view(disk: Seq<Seq<u8>>, time: u32) -> FsView {
    let sb = SuperBlock::parse(
        disk[0].subrange(SUPER_BLOCK_OFFSET as int, SUPER_BLOCK_OFFSET + SUPER_BLOCK_SIZE),
    );
    FsView {
        disk,
        super_block: sb,
        groups: Seq::new(
            sb.s_block_group_nr as nat,
            |g: int|
                BlockGroupDesc::parse(
                    disk[desc_pos(g).0].subrange(desc_pos(g).1, desc_pos(g).1 + GROUP_DESC_SIZE),
                ),
        ),
        time,
    }
}

/// The disk holds a valid file system.
pub open spec fn valid_image(disk: Seq<Seq<u8>>) -> bool {
    disk.len() >= 1 && image_view(disk, 0).wf()
}

/// The file system `v` after it was taken up at the time `now`: one mount
/// more is counted, as far as the count goes, the time is noted, and the
/// superblock is written to disk.
pub open spec fn mounted(v: FsView, now: u32) -> FsView {
    let sb = SuperBlock {
        s_mnt_count: if v.super_block.s_mnt_count < u16::MAX {
            (v.super_block.s_mnt_count + 1) as u16
        } else {
            v.super_block.s_mnt_count
        },
        s_mtime: now,
        ..v.super_block
    };
    (FsView { super_block: sb, time: now, ..v }).written(
        0,
        SUPER_BLOCK_OFFSET as int,
        sb.store(v.disk[0].subrange(SUPER_BLOCK_OFFSET as int, SUPER_BLOCK_OFFSET + SUPER_BLOCK_SIZE)),
    )
}

/// What a valid file system holds on disk, once its superblock and
/// descriptors are written, is a valid image of itself.
pub proof fn lemma_image_of(v: FsView)
    requires
        v.wf(),
        v.meta_on_disk(),
    ensures
        valid_image(v.disk),
        image_view(v.disk, v.time) == v,
{
    reveal(FsView::wf);
    let w = image_view(v.disk, v.time);
    assert(v.disk_super_block() == v.super_block);
    assert forall|g: int| 0 <= g < v.groups.len() implies w.groups[g] == v.groups[g] by {
        assert(v.disk_group_desc(g) == v.groups[g]);
    }
    assert(w.groups =~= v.groups);
    assert(w == v);
    let u = image_view(v.disk, 0);
    assert(u.groups =~= w.groups);
    v.lemma_frame(u);
}

/// Taking up what was made: the disk of a valid file system whose
/// superblock and descriptors are written is a valid image; and the file
/// system that `open` makes of it at the time `now` has the same
/// descriptors, the same inodes, and the same superblock but for one mount
/// more, as far as the count goes, and the time of the mount.
pub proof fn lemma_mount(v: FsView, now: u32)
    requires
        v.wf(),
        v.meta_on_disk(),
    ensures
        valid_image(v.disk),
        mounted(image_view(v.disk, now), now).wf(),
        mounted(image_view(v.disk, now), now).groups == v.groups,
        mounted(image_view(v.disk, now), now).super_block == (SuperBlock {
            s_mnt_count: if v.super_block.s_mnt_count < u16::MAX {
                (v.super_block.s_mnt_count + 1) as u16
            } else {
                v.super_block.s_mnt_count
            },
            s_mtime: now,
            ..v.super_block
        }),
        mounted(image_view(v.disk, now), now).super_block.s_magic == SB_MAGIC,
        forall|b: int| 1 <= b < v.disk.len() ==> #[trigger] mounted(image_view(v.disk, now), now).disk[b] == v.disk[b],
{
    lemma_image_of(v);
    let u = image_view(v.disk, v.time);
    let iv = image_view(v.disk, now);
    assert(iv.groups =~= u.groups);
    assert(iv == (FsView { time: now, ..v }));
    v.lemma_blocks();
    v.lemma_frame(iv);
    let m = mounted(iv, now);
    let sb = m.super_block;
    let mid = FsView { super_block: sb, time: now, ..iv };
    lemma_remounted(iv, mid);
    mid.lemma_low_blocks(0);
    mid.lemma_written_wf(
        0,
        SUPER_BLOCK_OFFSET as int,
        sb.store(v.disk[0].subrange(SUPER_BLOCK_OFFSET as int, SUPER_BLOCK_OFFSET + SUPER_BLOCK_SIZE)),
    );
    reveal(FsView::wf);
}

/// Taking a file system up leaves its files as they are: a sound file of a
/// valid file system whose superblock and descriptors are written is a
/// sound file of the file system that `open` makes of its disk, with the
/// same inode and the same bytes.
pub proof fn lemma_mount_keeps(file: Inode, v: FsView, now: u32)
    requires
        v.wf(),
        v.meta_on_disk(),
        file.sound(v),
    ensures
        file.sound(mounted(image_view(v.disk, now), now)),
        file.inode(mounted(image_view(v.disk, now), now)) == file.inode(v),
        file.bytes(mounted(image_view(v.disk, now), now)) == file.bytes(v),
        file.content(mounted(image_view(v.disk, now), now)) == file.content(v),
{
    lemma_mount(v, now);
    let w = mounted(image_view(v.disk, now), now);
    file.lemma_valid(v, v);
    v.lemma_inode_table_high(file.inode_id as int);
    v.lemma_bitmaps_high();
    assert(v.same_geometry(w));
    assert forall|p: int| 0 <= p < v.groups.len() * BLOCKS_PER_GRP implies #[trigger] w.block_used(p) == v.block_used(
        p,
    ) by {
        v.lemma_group_of(p);
    }
    assert forall|x: int| 0 <= x < v.disk.len() && v.is_data(x) implies #[trigger] w.disk[x] == v.disk[x] by {}
    crate::sound::lemma_sound_place(v, file.pos(), crate::block_map::blocks_for(file.inode(v).i_size as int));
    crate::sound::lemma_meta_quiet(v, w, file.pos(), crate::block_map::blocks_for(file.inode(v).i_size as int));
    let g = (file.inode_id as int - 1) / INODES_PER_GRP as int;
    assert(0 <= g < v.groups.len()) by {
        v.lemma_blocks();
        reveal(FsView::wf);
    }
    assert(w.inode_used(file.inode_id as int) == v.inode_used(file.inode_id as int));
    file.lemma_left_alone(v, w);
}

/// Whether the superblock and the descriptors fit a device of `n` blocks
/// and each other.
pub fn check_geometry(sb: &SuperBlock, table: &Vec<BlockGroupDesc>, n: usize) -> (ok: bool)
    ensures
        ok == geometry_fits(*sb, table@, n as int),
{
    let groups = table.len();
    if !(sb.s_magic == SB_MAGIC && 1 <= groups && groups <= MAX_GROUPS && sb.s_block_group_nr as usize == groups
        && sb.s_inodes_count as usize == groups * INODES_PER_GRP && sb.s_first_data_block == 0
        && sb.s_blocks_count as usize <= n && (groups - 1) * BLOCKS_PER_GRP < sb.s_blocks_count as usize
        && sb.s_blocks_count as usize <= groups * BLOCKS_PER_GRP) {
        return false;
    }
    let blocks = sb.s_blocks_count as usize;
    let head = 1 + (groups + DESCS_PER_BLOCK - 1) / DESCS_PER_BLOCK;
    let mut g: usize = 0;
    while g < groups
        invariant
            g <= groups,
            groups == table@.len(),
            1 <= groups <= MAX_GROUPS,
            blocks == sb.s_blocks_count,
            head == 1 + desc_block_count(groups as int),
            forall|h: int|
                0 <= h < g ==> group_ok(
                    #[trigger] table@[h],
                    group_lo(groups as int, h),
                    group_hi(blocks as int, h),
                ),
        decreases groups - g,
    {
        let d = &table[g];
        let lo = if g == 0 {
            head
        } else {
            g * BLOCKS_PER_GRP
        };
        let hi = if (g + 1) * BLOCKS_PER_GRP <= blocks {
            (g + 1) * BLOCKS_PER_GRP
        } else {
            blocks
        };
        let bb = d.bg_block_bitmap as usize;
        let ib = d.bg_inode_bitmap as usize;
        let it = d.bg_inode_table as usize;
        if !(lo <= bb && bb < hi && lo <= ib && ib < hi && lo <= it && hi >= INODE_TABLE_BLOCKS && it <= hi
            - INODE_TABLE_BLOCKS && bb != ib && !(it <= bb && bb - it < INODE_TABLE_BLOCKS) && !(it <= ib && ib
            - it < INODE_TABLE_BLOCKS)) {
            assert(!group_ok(table@[g as int], group_lo(groups as int, g as int), group_hi(blocks as int, g as int)));
            return false;
        }
        g += 1;
    }
    true
}

/// The superblock `sb` and the descriptors `groups` fit a device of `n`
/// blocks and each other.
pub open spec fn geometry_fits(sb: SuperBlock, groups: Seq<BlockGroupDesc>, n: int) -> bool {
    &&& sb.s_magic == SB_MAGIC
    &&& 1 <= groups.len() <= MAX_GROUPS
    &&& sb.s_block_group_nr == groups.len()
    &&& sb.s_inodes_count == groups.len() * INODES_PER_GRP
    &&& sb.s_first_data_block == 0
    &&& sb.s_blocks_count <= n
    &&& (groups.len() - 1) * BLOCKS_PER_GRP < sb.s_blocks_count
    &&& sb.s_blocks_count <= groups.len() * BLOCKS_PER_GRP
    &&& forall|g: int|
        0 <= g < groups.len() ==> group_ok(
            #[trigger] groups[g],
            group_lo(groups.len() as int, g),
            group_hi(sb.s_blocks_count as int, g),
        )
}

/// Number of set bits in a bitmap block.
pub fn count_bits(block: &[u8]) -> (c: usize)
    requires
        block@.len() == BLOCK_SIZE,
    ensures
        c == count_set(block@, BLOCK_BITS as nat),
        c <= BLOCK_BITS,
{
    let mut c: usize = 0;
    let mut j: usize = 0;
    while j < BLOCK_BITS
        invariant
            j <= BLOCK_BITS,
            block@.len() == BLOCK_SIZE,
            c == count_set(block@, j as nat),
            c <= j,
        decreases BLOCK_BITS - j,
    {
        if test_bit(block, j) {
            c += 1;
        }
        j += 1;
    }
    c
}

/// Whether bit `j` of a bitmap block is set.
pub fn test_bit(block: &[u8], j: usize) -> (set: bool)
    requires
        block@.len() == BLOCK_SIZE,
        j < BLOCK_BITS,
    ensures
        set == bit(block@, j as int),
{
    let k = (j % 8) as u8;
    let byte = block[j / 8];
    proof {
        assert((byte >> k) & 1u8 != 1u8 ==> (byte >> k) & 1u8 == 0u8) by (bit_vector);
    }
    (byte >> k) & 1u8 == 1u8
}

impl<D: BlockDevice> Ext2FileSystem<D> {
    /// Whether the bitmaps agree with the superblock and the descriptors:
    /// every block that is not for data is marked as used, and the free
    /// counts are those of the bitmaps.
    pub fn check_bitmaps(&mut self) -> (ok: bool)
        requires
            old(self).manager.ready(),
            old(self)@.geometry_ok(),
        ensures
            final(self).manager.ready(),
            final(self)@ == old(self)@,
            ok == (old(self)@.reserved_marked() && old(self)@.counts_ok()),
    {
        let ghost v = self@;
        let groups = self.group_desc_table.len();
        let mut free_blocks: u64 = 0;
        let mut free_inodes: u64 = 0;
        let mut g: usize = 0;
        while g < groups
            invariant
                self.manager.ready(),
                self@ == v,
                v == old(self)@,
                v.geometry_ok(),
                groups == v.groups.len(),
                g <= groups,
                free_blocks == sum_free_blocks(v.groups, g as nat),
                free_inodes == sum_free_inodes(v.groups, g as nat),
                free_blocks <= g * 65535,
                free_inodes <= g * 65535,
                forall|h: int|
                    0 <= h < g ==> {
                        &&& (#[trigger] v.groups[h]).bg_free_blocks_count == count_free(v.block_bitmap(h))
                        &&& v.groups[h].bg_free_inodes_count == count_free(v.inode_bitmap(h))
                    },
                forall|p: int| 0 <= p < g * BLOCKS_PER_GRP && !v.is_data(p) ==> #[trigger] v.block_used(p),
            decreases groups - g,
        {
            let d = self.group_desc_table[g];
            proof {
                assert(group_ok(
                    v.groups[g as int],
                    group_lo(v.groups.len() as int, g as int),
                    group_hi(v.super_block.s_blocks_count as int, g as int),
                ));
            }
            let blocks = self.manager.read_bytes(d.bg_block_bitmap as usize, 0, BLOCK_SIZE);
            let inodes = self.manager.read_bytes(d.bg_inode_bitmap as usize, 0, BLOCK_SIZE);
            proof {
                assert(blocks@ =~= v.block_bitmap(g as int));
                assert(inodes@ =~= v.inode_bitmap(g as int));
                lemma_count_bound(blocks@, BLOCK_BITS as nat);
                lemma_count_bound(inodes@, BLOCK_BITS as nat);
            }
            let used_blocks = count_bits(blocks.as_slice());
            let used_inodes = count_bits(inodes.as_slice());
            if d.bg_free_blocks_count as usize != BLOCK_BITS - used_blocks || d.bg_free_inodes_count as usize
                != BLOCK_BITS - used_inodes {
                return false;
            }
            let mut j: usize = 0;
            while j < BLOCK_BITS
                invariant
                    self.manager.ready(),
                    self@ == v,
                    v == old(self)@,
                    v.geometry_ok(),
                    groups == v.groups.len(),
                    g < groups,
                    j <= BLOCK_BITS,
                    blocks@ == v.block_bitmap(g as int),
                    blocks@.len() == BLOCK_SIZE,
                    forall|p: int|
                        0 <= p < g * BLOCKS_PER_GRP + j && !v.is_data(p) ==> #[trigger] v.block_used(p),
                decreases BLOCK_BITS - j,
            {
                let p = g * BLOCKS_PER_GRP + j;
                if !self.data_block(p as u32) && !test_bit(blocks.as_slice(), j) {
                    assert(!v.block_used(p as int));
                    return false;
                }
                j += 1;
            }
            free_blocks = free_blocks + d.bg_free_blocks_count as u64;
            free_inodes = free_inodes + d.bg_free_inodes_count as u64;
            g += 1;
        }
        self.super_block.s_free_blocks_count as u64 == free_blocks && self.super_block.s_free_inodes_count as u64
            == free_inodes
    }

    /// Whether files may keep data or block pointers in block `p`; as
    /// `is_data_block`, for a file system of which only the geometry is
    /// known to be right.
    pub fn data_block(&self, p: u32) -> (ok: bool)
        requires
            self@.geometry_ok(),
        ensures
            ok == self@.is_data(p as int),
    {
        if p >= self.super_block.s_blocks_count {
            return false;
        }
        let groups = self.group_desc_table.len();
        let g = (p as usize) / BLOCKS_PER_GRP;
        let d = &self.group_desc_table[g];
        let head = 1 + (groups + DESCS_PER_BLOCK - 1) / DESCS_PER_BLOCK;
        !((p as usize) < head || p == d.bg_block_bitmap || p == d.bg_inode_bitmap || (d.bg_inode_table <= p
            && (p as usize) < d.bg_inode_table as usize + INODE_TABLE_BLOCKS))
    }

    /// Takes up the file system that `block_device` holds, at the time
    /// `cur_time` and with a cache of at most `max_cache` blocks: reads the
    /// superblock and the descriptors, checks them against the device and
    /// against the bitmaps, counts the mount, notes its time, and writes
    /// the superblock back. Fails with `InvalidData` where `max_cache` is
    /// zero or the device holds no valid file system.
    pub fn open(block_device: D, max_cache: usize, cur_time: u32) -> (r: Result<Self, Ext2Error>)
        requires
            block_device.inv(),
        ensures
            r is Ok <==> max_cache > 0 && valid_image(block_device.blocks()),
            match r {
                Ok(fs) => {
                    &&& fs.wf()
                    &&& fs@ == mounted(image_view(block_device.blocks(), cur_time), cur_time)
                    &&& fs.manager.device.blocks() == fs@.disk
                },
                Err(e) => e == Ext2Error::InvalidData,
            },
    {
        if max_cache == 0 {
            return Err(Ext2Error::InvalidData);
        }
        let ghost disk = block_device.blocks();
        let n = block_device.block_num();
        if n == 0 {
            return Err(Ext2Error::InvalidData);
        }
        let mut manager = BlockCacheManager::new(block_device, max_cache);
        proof {
            assert(manager.model().no_pins());
            manager.model().lemma_view_len();
        }
        let region = manager.read_bytes(0, SUPER_BLOCK_OFFSET, SUPER_BLOCK_SIZE);
        let super_block = SuperBlock::from_bytes(region.as_slice());
        let groups = super_block.s_block_group_nr as usize;
        let ghost iv = image_view(disk, cur_time);
        if groups == 0 || 1 + (groups + DESCS_PER_BLOCK - 1) / DESCS_PER_BLOCK > n {
            proof {
                reveal(FsView::wf);
                let u = image_view(disk, 0);
                if u.wf() {
                    assert(group_ok(
                        u.groups[0],
                        group_lo(u.groups.len() as int, 0),
                        group_hi(u.super_block.s_blocks_count as int, 0),
                    ));
                }
            }
            return Err(Ext2Error::InvalidData);
        }
        let mut table: Vec<BlockGroupDesc> = Vec::new();
        let mut g: usize = 0;
        while g < groups
            invariant
                manager.ready(),
                manager.view() == disk,
                manager.max_cache == max_cache,
                n == disk.len(),
                1 + desc_block_count(groups as int) <= n,
                g <= groups,
                groups == super_block.s_block_group_nr,
                iv == image_view(disk, cur_time),
                super_block == iv.super_block,
                table@.len() == g,
                forall|h: int| 0 <= h < g ==> #[trigger] table@[h] == iv.groups[h],
            decreases groups - g,
        {
            let bytes = manager.read_bytes(1 + g / DESCS_PER_BLOCK, (g % DESCS_PER_BLOCK) * GROUP_DESC_SIZE, GROUP_DESC_SIZE);
            table.push(BlockGroupDesc::from_bytes(bytes.as_slice()));
            g += 1;
        }
        assert(table@ =~= iv.groups);
        if !check_geometry(&super_block, &table, n) {
            proof {
                reveal(FsView::wf);
                let u = image_view(disk, 0);
                assert(u.groups =~= iv.groups);
            }
            return Err(Ext2Error::InvalidData);
        }
        let mut fs = Ext2FileSystem { manager, super_block, group_desc_table: table, cur_time };
        proof {
            assert(fs@ == iv);
            manager.model().lemma_view_len();
            assert(iv.geometry_ok());
        }
        if !fs.check_bitmaps() {
            proof {
                reveal(FsView::wf);
                let u = image_view(disk, 0);
                assert(u.groups =~= iv.groups);
                if u.wf() {
                    u.lemma_frame(iv);
                }
            }
            return Err(Ext2Error::InvalidData);
        }
        proof {
            reveal(FsView::wf);
            assert(iv.wf());
            let u = image_view(disk, 0);
            assert(u.groups =~= iv.groups);
            iv.lemma_frame(u);
        }
        if fs.super_block.s_mnt_count < u16::MAX {
            fs.super_block.s_mnt_count = fs.super_block.s_mnt_count + 1;
        }
        fs.super_block.s_mtime = cur_time;
        proof {
            lemma_remounted(iv, fs@);
        }
        fs.write_super_block();
        fs.sync();
        Ok(fs)
    }
}

/// Counting a mount and noting its time leaves a file system valid.
pub proof fn lemma_remounted(v: FsView, w: FsView)
    requires
        v.wf(),
        w.disk == v.disk,
        w.groups == v.groups,
        w.super_block == (SuperBlock {
            s_mnt_count: w.super_block.s_mnt_count,
            s_mtime: w.super_block.s_mtime,
            ..v.super_block
        }),
    ensures
        w.wf(),
{
    reveal(FsView::wf);
    assert forall|g: int| 0 <= g < w.groups.len() implies group_ok(
        #[trigger] w.groups[g],
        group_lo(w.groups.len() as int, g),
        group_hi(w.super_block.s_blocks_count as int, g),
    ) by {
        assert(group_ok(v.groups[g], group_lo(v.groups.len() as int, g), group_hi(v.super_block.s_blocks_count as int, g)));
    }
    assert forall|p: int| 0 <= p < w.groups.len() * BLOCKS_PER_GRP && !w.is_data(p) implies #[trigger] w.block_used(p) by {
        assert(!v.is_data(p));
        assert(v.block_used(p));
    }
    assert forall|g: int| 0 <= g < w.groups.len() implies {
        &&& (#[trigger] w.groups[g]).bg_free_blocks_count == count_free(w.block_bitmap(g))
        &&& w.groups[g].bg_free_inodes_count == count_free(w.inode_bitmap(g))
    } by {
        assert(v.groups[g].bg_free_blocks_count == count_free(v.block_bitmap(g)));
    }
}

} // verus!
