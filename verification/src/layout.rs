//! The structures that ext2 keeps on disk, and how each is laid out in bytes.
use vstd::prelude::*;
use vstd::string::StringSliceAdditionalSpecFns;
use vstd::bytes::*;

use crate::codec::{
    get_u128, get_u16, get_u32, group_codec, le128, le16, le32, patch, put_bytes, put_u128, put_u16,
    put_u32, put_u8, zeroed, zeros,
};
use crate::config::{
    BLOCKS_PER_GRP, CHECK_INTERVAL, DIR_ENTRY_HEAD_SIZE, EXT2_GOOD_OLD_FIRST_INO,
    EXT2_GOOD_OLD_INODE_SIZE, FAKE_CREATE_TIME, FAKE_JOURNAL_UUID, FAKE_UUID, FIRST_DATA_BLOCK,
    GROUP_DESC_SIZE, INODES_PER_GRP, LOG_BLOCK_SIZE, LOG_FRAG_SIZE, MAX_NAME_LEN, SUPER_BLOCK_SIZE,
};

verus! {

broadcast use group_codec;

pub const SB_MAGIC: u16 = 0xEF53;

// s_state
pub const EXT2_VALID_FS: u16 = 1;
pub const EXT2_ERROR_FS: u16 = 2;

// s_errors
pub const EXT2_ERRORS_CONTINUE: u16 = 1;
pub const EXT2_ERRORS_RO: u16 = 2;
pub const EXT2_ERRORS_PANIC: u16 = 3;

// s_creator_os
pub const EXT2_OS_LINUX: u32 = 0;

// s_rev_level
pub const EXT2_GOOD_OLD_REV: u32 = 0;
pub const EXT2_DYNAMIC_REV: u32 = 1;

pub const EXT2_DEF_RESUID: u16 = 0;
pub const EXT2_DEF_RESGID: u16 = 0;

// Permission bits of `i_mode`.
pub const EXT2_S_IXOTH: u16 = 0x001;
pub const EXT2_S_IWOTH: u16 = 0x002;
pub const EXT2_S_IROTH: u16 = 0x004;
pub const EXT2_S_IXGRP: u16 = 0x008;
pub const EXT2_S_IWGRP: u16 = 0x010;
pub const EXT2_S_IRGRP: u16 = 0x020;
pub const EXT2_S_IXUSR: u16 = 0x040;
pub const EXT2_S_IWUSR: u16 = 0x080;
pub const EXT2_S_IRUSR: u16 = 0x100;
pub const EXT2_S_ISVTX: u16 = 0x200;
pub const EXT2_S_ISGID: u16 = 0x400;
pub const EXT2_S_ISUID: u16 = 0x800;

/// All twelve permission bits.
pub const IMODE_MASK: u16 = 0x0FFF;

/// The permissions of a new file: read, write and execute for everybody.
pub const DEFAULT_IMODE: u16 = 0x1FF;

/// The bits of `i_mode` that tell the kind of file.
pub const EXT2_S_IFMT: u16 = 0xF000;

// Kinds of file in `i_mode`.
pub const EXT2_S_IFIFO: u16 = 0x1000;
pub const EXT2_S_IFCHR: u16 = 0x2000;
pub const EXT2_S_IFDIR: u16 = 0x4000;
pub const EXT2_S_IFBLK: u16 = 0x6000;
pub const EXT2_S_IFREG: u16 = 0x8000;
pub const EXT2_S_IFLNK: u16 = 0xA000;
pub const EXT2_S_IFSOCK: u16 = 0xC000;

// Kinds of file in a directory entry.
pub const EXT2_FT_UNKNOWN: u8 = 0;
pub const EXT2_FT_REG_FILE: u8 = 1;
pub const EXT2_FT_DIR: u8 = 2;
pub const EXT2_FT_CHRDEV: u8 = 3;
pub const EXT2_FT_BLKDEV: u8 = 4;
pub const EXT2_FT_FIFO: u8 = 5;
pub const EXT2_FT_SOCK: u8 = 6;
pub const EXT2_FT_SYMLINK: u8 = 7;

/// Block pointers that an inode holds itself.
pub const DIRECT_BLOCK_NUM: usize = 12;

/// Block pointers in one indirect block.
pub const POINTERS_PER_BLOCK: usize = 1024;

/// Blocks that one double-indirect block reaches.
pub const DOUBLE_BLOCK_NUM: usize = 1048576;

/// Blocks that one triple-indirect block reaches.
pub const TRIPLE_BLOCK_NUM: usize = 1073741824;

/// Where the fifteen block pointers start inside an encoded inode.
pub const INODE_BLOCK_MAP_OFFSET: usize = 40;

/// The superblock, as far as the file system reads it. On disk it takes
/// `SUPER_BLOCK_SIZE` bytes; the fields stand where ext2 revision 0 puts them.
#[derive(Clone, Copy, Debug, PartialEq, Eq, Structural)]
pub struct SuperBlock {
    pub s_inodes_count: u32,
    pub s_blocks_count: u32,
    pub s_r_blocks_count: u32,
    pub s_free_blocks_count: u32,
    pub s_free_inodes_count: u32,
    pub s_first_data_block: u32,
    pub s_log_block_size: u32,
    pub s_log_frag_size: u32,
    pub s_blocks_per_group: u32,
    pub s_frags_per_group: u32,
    pub s_inodes_per_group: u32,
    pub s_mtime: u32,
    pub s_wtime: u32,
    pub s_mnt_count: u16,
    pub s_max_mnt_count: u16,
    pub s_magic: u16,
    pub s_state: u16,
    pub s_errors: u16,
    pub s_minor_rev_level: u16,
    pub s_lastcheck: u32,
    pub s_checkinterval: u32,
    pub s_creator_os: u32,
    pub s_rev_level: u32,
    pub s_def_resuid: u16,
    pub s_def_resgid: u16,
    pub s_first_ino: u32,
    pub s_inode_size: u16,
    /// Number of block groups.
    pub s_block_group_nr: u16,
    pub s_feature_compat: u32,
    pub s_feature_incompat: u32,
    pub s_feature_ro_compat: u32,
    pub s_uuid: u128,
    /// The sixteen bytes of the volume name, read as one little-endian number.
    pub s_volume_name: u128,
    pub s_algo_bitmap: u32,
    pub s_prealloc_blocks: u8,
    pub s_prealloc_dir_blocks: u8,
    pub s_journal_uuid: u128,
    pub s_journal_inum: u32,
    pub s_journal_dev: u32,
    pub s_last_orphan: u32,
    pub s_def_hash_version: u8,
    pub s_default_mount_option: u32,
    pub s_first_meta_bg: u32,
}

/// The descriptor of one block group: where its bitmaps and its inode table
/// are, and what is free in it. On disk it takes `GROUP_DESC_SIZE` bytes.
#[derive(Clone, Copy, Debug, PartialEq, Eq, Structural)]
pub struct BlockGroupDesc {
    pub bg_block_bitmap: u32,
    pub bg_inode_bitmap: u32,
    pub bg_inode_table: u32,
    pub bg_free_blocks_count: u16,
    pub bg_free_inodes_count: u16,
    pub bg_used_dirs_count: u16,
    pub bg_pad: u16,
}

/// The part of an inode that Linux defines for itself.
#[derive(Clone, Copy, Debug, PartialEq, Eq, Structural)]
pub struct LinuxOSD {
    pub l_i_frag: u8,
    pub l_i_fsize: u8,
    pub l_i_uid_high: u16,
    pub l_i_gid_high: u16,
}

/// An inode without its block pointers, which are read and written where
/// they stand on disk. Encoded, an inode takes `EXT2_GOOD_OLD_INODE_SIZE`
/// bytes; the fifteen pointers are the sixty bytes from
/// `INODE_BLOCK_MAP_OFFSET` on.
#[derive(Clone, Copy, Debug, PartialEq, Eq, Structural)]
pub struct DiskInode {
    pub i_mode: u16,
    pub i_uid: u16,
    pub i_size: u32,
    pub i_atime: u32,
    pub i_ctime: u32,
    pub i_mtime: u32,
    pub i_dtime: u32,
    pub i_gid: u16,
    pub i_links_count: u16,
    /// Sectors of 512 bytes that the file holds, data and indirect blocks together.
    pub i_blocks: u32,
    pub i_flags: u32,
    pub i_osd1: u32,
    pub i_generation: u32,
    pub i_file_acl: u32,
    pub i_dir_acl: u32,
    pub i_faddr: u32,
    pub i_osd2: LinuxOSD,
}

/// The fixed head of a directory entry; the name follows it.
#[derive(Clone, Copy, Debug, PartialEq, Eq, Structural)]
pub struct DirEntryHead {
    pub inode: u32,
    pub rec_len: u16,
    pub name_len: u8,
    pub file_type: u8,
}

impl SuperBlock {
    /// The value that the 1024 bytes `b` encode.
    pub open spec fn parse(b: Seq<u8>) -> SuperBlock {
        SuperBlock {
            s_inodes_count: le32(b, 0),
            s_blocks_count: le32(b, 4),
            s_r_blocks_count: le32(b, 8),
            s_free_blocks_count: le32(b, 12),
            s_free_inodes_count: le32(b, 16),
            s_first_data_block: le32(b, 20),
            s_log_block_size: le32(b, 24),
            s_log_frag_size: le32(b, 28),
            s_blocks_per_group: le32(b, 32),
            s_frags_per_group: le32(b, 36),
            s_inodes_per_group: le32(b, 40),
            s_mtime: le32(b, 44),
            s_wtime: le32(b, 48),
            s_mnt_count: le16(b, 52),
            s_max_mnt_count: le16(b, 54),
            s_magic: le16(b, 56),
            s_state: le16(b, 58),
            s_errors: le16(b, 60),
            s_minor_rev_level: le16(b, 62),
            s_lastcheck: le32(b, 64),
            s_checkinterval: le32(b, 68),
            s_creator_os: le32(b, 72),
            s_rev_level: le32(b, 76),
            s_def_resuid: le16(b, 80),
            s_def_resgid: le16(b, 82),
            s_first_ino: le32(b, 84),
            s_inode_size: le16(b, 88),
            s_block_group_nr: le16(b, 90),
            s_feature_compat: le32(b, 92),
            s_feature_incompat: le32(b, 96),
            s_feature_ro_compat: le32(b, 100),
            s_uuid: le128(b, 104),
            s_volume_name: le128(b, 120),
            s_algo_bitmap: le32(b, 200),
            s_prealloc_blocks: b[204],
            s_prealloc_dir_blocks: b[205],
            s_journal_uuid: le128(b, 208),
            s_journal_inum: le32(b, 224),
            s_journal_dev: le32(b, 228),
            s_last_orphan: le32(b, 232),
            s_def_hash_version: b[252],
            s_default_mount_option: le32(b, 256),
            s_first_meta_bg: le32(b, 260),
        }
    }

    /// The bytes `b` with each field written at its place; the bytes
    /// between and behind the fields stay.
    pub open spec fn store(self, b: Seq<u8>) -> Seq<u8> {
        let b = patch(b, 0, spec_u32_to_le_bytes(self.s_inodes_count));
        let b = patch(b, 4, spec_u32_to_le_bytes(self.s_blocks_count));
        let b = patch(b, 8, spec_u32_to_le_bytes(self.s_r_blocks_count));
        let b = patch(b, 12, spec_u32_to_le_bytes(self.s_free_blocks_count));
        let b = patch(b, 16, spec_u32_to_le_bytes(self.s_free_inodes_count));
        let b = patch(b, 20, spec_u32_to_le_bytes(self.s_first_data_block));
        let b = patch(b, 24, spec_u32_to_le_bytes(self.s_log_block_size));
        let b = patch(b, 28, spec_u32_to_le_bytes(self.s_log_frag_size));
        let b = patch(b, 32, spec_u32_to_le_bytes(self.s_blocks_per_group));
        let b = patch(b, 36, spec_u32_to_le_bytes(self.s_frags_per_group));
        let b = patch(b, 40, spec_u32_to_le_bytes(self.s_inodes_per_group));
        let b = patch(b, 44, spec_u32_to_le_bytes(self.s_mtime));
        let b = patch(b, 48, spec_u32_to_le_bytes(self.s_wtime));
        let b = patch(b, 52, spec_u16_to_le_bytes(self.s_mnt_count));
        let b = patch(b, 54, spec_u16_to_le_bytes(self.s_max_mnt_count));
        let b = patch(b, 56, spec_u16_to_le_bytes(self.s_magic));
        let b = patch(b, 58, spec_u16_to_le_bytes(self.s_state));
        let b = patch(b, 60, spec_u16_to_le_bytes(self.s_errors));
        let b = patch(b, 62, spec_u16_to_le_bytes(self.s_minor_rev_level));
        let b = patch(b, 64, spec_u32_to_le_bytes(self.s_lastcheck));
        let b = patch(b, 68, spec_u32_to_le_bytes(self.s_checkinterval));
        let b = patch(b, 72, spec_u32_to_le_bytes(self.s_creator_os));
        let b = patch(b, 76, spec_u32_to_le_bytes(self.s_rev_level));
        let b = patch(b, 80, spec_u16_to_le_bytes(self.s_def_resuid));
        let b = patch(b, 82, spec_u16_to_le_bytes(self.s_def_resgid));
        let b = patch(b, 84, spec_u32_to_le_bytes(self.s_first_ino));
        let b = patch(b, 88, spec_u16_to_le_bytes(self.s_inode_size));
        let b = patch(b, 90, spec_u16_to_le_bytes(self.s_block_group_nr));
        let b = patch(b, 92, spec_u32_to_le_bytes(self.s_feature_compat));
        let b = patch(b, 96, spec_u32_to_le_bytes(self.s_feature_incompat));
        let b = patch(b, 100, spec_u32_to_le_bytes(self.s_feature_ro_compat));
        let b = patch(b, 104, spec_u128_to_le_bytes(self.s_uuid));
        let b = patch(b, 120, spec_u128_to_le_bytes(self.s_volume_name));
        let b = patch(b, 200, spec_u32_to_le_bytes(self.s_algo_bitmap));
        let b = patch(b, 204, seq![self.s_prealloc_blocks]);
        let b = patch(b, 205, seq![self.s_prealloc_dir_blocks]);
        let b = patch(b, 208, spec_u128_to_le_bytes(self.s_journal_uuid));
        let b = patch(b, 224, spec_u32_to_le_bytes(self.s_journal_inum));
        let b = patch(b, 228, spec_u32_to_le_bytes(self.s_journal_dev));
        let b = patch(b, 232, spec_u32_to_le_bytes(self.s_last_orphan));
        let b = patch(b, 252, seq![self.s_def_hash_version]);
        let b = patch(b, 256, spec_u32_to_le_bytes(self.s_default_mount_option));
        let b = patch(b, 260, spec_u32_to_le_bytes(self.s_first_meta_bg));
        b
    }

    /// Decodes the value that the first 1024 bytes of `buf` hold.
    pub fn from_bytes(buf: &[u8]) -> (v: SuperBlock)
        requires
            buf@.len() == SUPER_BLOCK_SIZE,
        ensures
            v == SuperBlock::parse(buf@),
    {
        SuperBlock {
            s_inodes_count: get_u32(buf, 0),
            s_blocks_count: get_u32(buf, 4),
            s_r_blocks_count: get_u32(buf, 8),
            s_free_blocks_count: get_u32(buf, 12),
            s_free_inodes_count: get_u32(buf, 16),
            s_first_data_block: get_u32(buf, 20),
            s_log_block_size: get_u32(buf, 24),
            s_log_frag_size: get_u32(buf, 28),
            s_blocks_per_group: get_u32(buf, 32),
            s_frags_per_group: get_u32(buf, 36),
            s_inodes_per_group: get_u32(buf, 40),
            s_mtime: get_u32(buf, 44),
            s_wtime: get_u32(buf, 48),
            s_mnt_count: get_u16(buf, 52),
            s_max_mnt_count: get_u16(buf, 54),
            s_magic: get_u16(buf, 56),
            s_state: get_u16(buf, 58),
            s_errors: get_u16(buf, 60),
            s_minor_rev_level: get_u16(buf, 62),
            s_lastcheck: get_u32(buf, 64),
            s_checkinterval: get_u32(buf, 68),
            s_creator_os: get_u32(buf, 72),
            s_rev_level: get_u32(buf, 76),
            s_def_resuid: get_u16(buf, 80),
            s_def_resgid: get_u16(buf, 82),
            s_first_ino: get_u32(buf, 84),
            s_inode_size: get_u16(buf, 88),
            s_block_group_nr: get_u16(buf, 90),
            s_feature_compat: get_u32(buf, 92),
            s_feature_incompat: get_u32(buf, 96),
            s_feature_ro_compat: get_u32(buf, 100),
            s_uuid: get_u128(buf, 104),
            s_volume_name: get_u128(buf, 120),
            s_algo_bitmap: get_u32(buf, 200),
            s_prealloc_blocks: buf[204],
            s_prealloc_dir_blocks: buf[205],
            s_journal_uuid: get_u128(buf, 208),
            s_journal_inum: get_u32(buf, 224),
            s_journal_dev: get_u32(buf, 228),
            s_last_orphan: get_u32(buf, 232),
            s_def_hash_version: buf[252],
            s_default_mount_option: get_u32(buf, 256),
            s_first_meta_bg: get_u32(buf, 260),
        }
    }

    /// Writes the fields into `buf`, each at its place.
    pub fn to_bytes(&self, buf: &mut Vec<u8>)
        requires
            old(buf)@.len() == SUPER_BLOCK_SIZE,
        ensures
            final(buf)@ == self.store(old(buf)@),
            final(buf)@.len() == SUPER_BLOCK_SIZE,
    {
        put_u32(buf, 0, self.s_inodes_count);
        put_u32(buf, 4, self.s_blocks_count);
        put_u32(buf, 8, self.s_r_blocks_count);
        put_u32(buf, 12, self.s_free_blocks_count);
        put_u32(buf, 16, self.s_free_inodes_count);
        put_u32(buf, 20, self.s_first_data_block);
        put_u32(buf, 24, self.s_log_block_size);
        put_u32(buf, 28, self.s_log_frag_size);
        put_u32(buf, 32, self.s_blocks_per_group);
        put_u32(buf, 36, self.s_frags_per_group);
        put_u32(buf, 40, self.s_inodes_per_group);
        put_u32(buf, 44, self.s_mtime);
        put_u32(buf, 48, self.s_wtime);
        put_u16(buf, 52, self.s_mnt_count);
        put_u16(buf, 54, self.s_max_mnt_count);
        put_u16(buf, 56, self.s_magic);
        put_u16(buf, 58, self.s_state);
        put_u16(buf, 60, self.s_errors);
        put_u16(buf, 62, self.s_minor_rev_level);
        put_u32(buf, 64, self.s_lastcheck);
        put_u32(buf, 68, self.s_checkinterval);
        put_u32(buf, 72, self.s_creator_os);
        put_u32(buf, 76, self.s_rev_level);
        put_u16(buf, 80, self.s_def_resuid);
        put_u16(buf, 82, self.s_def_resgid);
        put_u32(buf, 84, self.s_first_ino);
        put_u16(buf, 88, self.s_inode_size);
        put_u16(buf, 90, self.s_block_group_nr);
        put_u32(buf, 92, self.s_feature_compat);
        put_u32(buf, 96, self.s_feature_incompat);
        put_u32(buf, 100, self.s_feature_ro_compat);
        put_u128(buf, 104, self.s_uuid);
        put_u128(buf, 120, self.s_volume_name);
        put_u32(buf, 200, self.s_algo_bitmap);
        put_u8(buf, 204, self.s_prealloc_blocks);
        put_u8(buf, 205, self.s_prealloc_dir_blocks);
        put_u128(buf, 208, self.s_journal_uuid);
        put_u32(buf, 224, self.s_journal_inum);
        put_u32(buf, 228, self.s_journal_dev);
        put_u32(buf, 232, self.s_last_orphan);
        put_u8(buf, 252, self.s_def_hash_version);
        put_u32(buf, 256, self.s_default_mount_option);
        put_u32(buf, 260, self.s_first_meta_bg);
    }

    /// What was stored is what is parsed, whatever the bytes held before.
    pub proof fn lemma_store_parse(self, b: Seq<u8>)
        requires
            b.len() == SUPER_BLOCK_SIZE,
        ensures
            self.store(b).len() == SUPER_BLOCK_SIZE,
            SuperBlock::parse(self.store(b)) == self,
    {
    }
    /// The volume name field for a name of at most sixteen bytes: the name,
    /// filled up with zero bytes.
    pub open spec fn volume_name_field(name: Seq<u8>) -> u128 {
        spec_u128_from_le_bytes(patch(zeros(16), 0, name))
    }

    /// The superblock of a fresh image.
    pub fn new(
        inodes_count: usize,
        blocks_count: usize,
        free_inodes_count: usize,
        free_blocks_count: usize,
        block_group_num: usize,
        volumn_name: &str,
    ) -> (sb: SuperBlock)
        requires
            inodes_count <= u32::MAX,
            blocks_count <= u32::MAX,
            free_inodes_count <= u32::MAX,
            free_blocks_count <= u32::MAX,
            block_group_num <= u16::MAX,
            volumn_name.spec_bytes().len() <= 16,
        ensures
            sb == SuperBlock::fresh(
                inodes_count as u32,
                blocks_count as u32,
                free_inodes_count as u32,
                free_blocks_count as u32,
                block_group_num as u16,
                SuperBlock::volume_name_field(volumn_name.spec_bytes()),
            ),
    {
        let mut name = zeroed(16);
        put_bytes(&mut name, 0, volumn_name.as_bytes());
        SuperBlock {
            s_inodes_count: inodes_count as u32,
            s_blocks_count: blocks_count as u32,
            s_r_blocks_count: 0,
            s_free_blocks_count: free_blocks_count as u32,
            s_free_inodes_count: free_inodes_count as u32,
            s_first_data_block: FIRST_DATA_BLOCK as u32,
            s_log_block_size: LOG_BLOCK_SIZE as u32,
            s_log_frag_size: LOG_FRAG_SIZE as u32,
            s_blocks_per_group: BLOCKS_PER_GRP as u32,
            s_frags_per_group: BLOCKS_PER_GRP as u32,
            s_inodes_per_group: INODES_PER_GRP as u32,
            s_mtime: FAKE_CREATE_TIME as u32,
            s_wtime: FAKE_CREATE_TIME as u32,
            s_mnt_count: 0,
            s_max_mnt_count: 32,
            s_magic: SB_MAGIC,
            s_state: EXT2_VALID_FS,
            s_errors: EXT2_ERRORS_RO,
            s_minor_rev_level: 0,
            s_lastcheck: FAKE_CREATE_TIME as u32,
            s_checkinterval: CHECK_INTERVAL as u32,
            s_creator_os: EXT2_OS_LINUX,
            s_rev_level: EXT2_GOOD_OLD_REV,
            s_def_resuid: EXT2_DEF_RESUID,
            s_def_resgid: EXT2_DEF_RESGID,
            s_first_ino: EXT2_GOOD_OLD_FIRST_INO as u32,
            s_inode_size: EXT2_GOOD_OLD_INODE_SIZE as u16,
            s_block_group_nr: block_group_num as u16,
            s_feature_compat: 0,
            s_feature_incompat: 0,
            s_feature_ro_compat: 0,
            s_uuid: FAKE_UUID,
            s_volume_name: u128_from_le_bytes(name.as_slice()),
            s_algo_bitmap: 0,
            s_prealloc_blocks: 0,
            s_prealloc_dir_blocks: 0,
            s_journal_uuid: FAKE_JOURNAL_UUID,
            s_journal_inum: 0,
            s_journal_dev: 0,
            s_last_orphan: 0,
            s_def_hash_version: 0,
            s_default_mount_option: 0,
            s_first_meta_bg: 0,
        }
    }

    /// The superblock of a fresh image with these counts and this name.
    pub open spec fn fresh(
        inodes_count: u32,
        blocks_count: u32,
        free_inodes_count: u32,
        free_blocks_count: u32,
        block_group_num: u16,
        volume_name: u128,
    ) -> SuperBlock {
        SuperBlock {
            s_inodes_count: inodes_count,
            s_blocks_count: blocks_count,
            s_r_blocks_count: 0,
            s_free_blocks_count: free_blocks_count,
            s_free_inodes_count: free_inodes_count,
            s_first_data_block: 0,
            s_log_block_size: 2,
            s_log_frag_size: 2,
            s_blocks_per_group: 32768,
            s_frags_per_group: 32768,
            s_inodes_per_group: 32768,
            s_mtime: 1576800000,
            s_wtime: 1576800000,
            s_mnt_count: 0,
            s_max_mnt_count: 32,
            s_magic: SB_MAGIC,
            s_state: EXT2_VALID_FS,
            s_errors: EXT2_ERRORS_RO,
            s_minor_rev_level: 0,
            s_lastcheck: 1576800000,
            s_checkinterval: 7776000,
            s_creator_os: EXT2_OS_LINUX,
            s_rev_level: EXT2_GOOD_OLD_REV,
            s_def_resuid: 0,
            s_def_resgid: 0,
            s_first_ino: 11,
            s_inode_size: 128,
            s_block_group_nr: block_group_num,
            s_feature_compat: 0,
            s_feature_incompat: 0,
            s_feature_ro_compat: 0,
            s_uuid: FAKE_UUID,
            s_volume_name: volume_name,
            s_algo_bitmap: 0,
            s_prealloc_blocks: 0,
            s_prealloc_dir_blocks: 0,
            s_journal_uuid: FAKE_JOURNAL_UUID,
            s_journal_inum: 0,
            s_journal_dev: 0,
            s_last_orphan: 0,
            s_def_hash_version: 0,
            s_default_mount_option: 0,
            s_first_meta_bg: 0,
        }
    }

    /// Whether the magic number is that of ext2.
    pub fn is_valid(&self) -> (ok: bool)
        ensures
            ok == (self.s_magic == SB_MAGIC),
    {
        self.s_magic == SB_MAGIC
    }
}

impl BlockGroupDesc {
    /// The value that the 32 bytes `b` encode.
    pub open spec fn parse(b: Seq<u8>) -> BlockGroupDesc {
        BlockGroupDesc {
            bg_block_bitmap: le32(b, 0),
            bg_inode_bitmap: le32(b, 4),
            bg_inode_table: le32(b, 8),
            bg_free_blocks_count: le16(b, 12),
            bg_free_inodes_count: le16(b, 14),
            bg_used_dirs_count: le16(b, 16),
            bg_pad: le16(b, 18),
        }
    }

    /// The bytes `b` with each field written at its place; the bytes
    /// between and behind the fields stay.
    pub open spec fn store(self, b: Seq<u8>) -> Seq<u8> {
        let b = patch(b, 0, spec_u32_to_le_bytes(self.bg_block_bitmap));
        let b = patch(b, 4, spec_u32_to_le_bytes(self.bg_inode_bitmap));
        let b = patch(b, 8, spec_u32_to_le_bytes(self.bg_inode_table));
        let b = patch(b, 12, spec_u16_to_le_bytes(self.bg_free_blocks_count));
        let b = patch(b, 14, spec_u16_to_le_bytes(self.bg_free_inodes_count));
        let b = patch(b, 16, spec_u16_to_le_bytes(self.bg_used_dirs_count));
        let b = patch(b, 18, spec_u16_to_le_bytes(self.bg_pad));
        b
    }

    /// Decodes the value that the first 32 bytes of `buf` hold.
    pub fn from_bytes(buf: &[u8]) -> (v: BlockGroupDesc)
        requires
            buf@.len() == GROUP_DESC_SIZE,
        ensures
            v == BlockGroupDesc::parse(buf@),
    {
        BlockGroupDesc {
            bg_block_bitmap: get_u32(buf, 0),
            bg_inode_bitmap: get_u32(buf, 4),
            bg_inode_table: get_u32(buf, 8),
            bg_free_blocks_count: get_u16(buf, 12),
            bg_free_inodes_count: get_u16(buf, 14),
            bg_used_dirs_count: get_u16(buf, 16),
            bg_pad: get_u16(buf, 18),
        }
    }

    /// Writes the fields into `buf`, each at its place.
    pub fn to_bytes(&self, buf: &mut Vec<u8>)
        requires
            old(buf)@.len() == GROUP_DESC_SIZE,
        ensures
            final(buf)@ == self.store(old(buf)@),
            final(buf)@.len() == GROUP_DESC_SIZE,
    {
        put_u32(buf, 0, self.bg_block_bitmap);
        put_u32(buf, 4, self.bg_inode_bitmap);
        put_u32(buf, 8, self.bg_inode_table);
        put_u16(buf, 12, self.bg_free_blocks_count);
        put_u16(buf, 14, self.bg_free_inodes_count);
        put_u16(buf, 16, self.bg_used_dirs_count);
        put_u16(buf, 18, self.bg_pad);
    }

    /// What was stored is what is parsed, whatever the bytes held before.
    pub proof fn lemma_store_parse(self, b: Seq<u8>)
        requires
            b.len() == GROUP_DESC_SIZE,
        ensures
            self.store(b).len() == GROUP_DESC_SIZE,
            BlockGroupDesc::parse(self.store(b)) == self,
    {
    }
    /// A descriptor with these places and counts.
    pub fn new(
        block_bitmap: usize,
        inode_bitmap: usize,
        inode_table: usize,
        free_blocks: usize,
        free_inodes: usize,
        used_dirs: usize,
    ) -> (desc: BlockGroupDesc)
        requires
            block_bitmap <= u32::MAX,
            inode_bitmap <= u32::MAX,
            inode_table <= u32::MAX,
            free_blocks <= u16::MAX,
            free_inodes <= u16::MAX,
            used_dirs <= u16::MAX,
        ensures
            desc == (BlockGroupDesc {
                bg_block_bitmap: block_bitmap as u32,
                bg_inode_bitmap: inode_bitmap as u32,
                bg_inode_table: inode_table as u32,
                bg_free_blocks_count: free_blocks as u16,
                bg_free_inodes_count: free_inodes as u16,
                bg_used_dirs_count: used_dirs as u16,
                bg_pad: 0,
            }),
    {
        BlockGroupDesc {
            bg_block_bitmap: block_bitmap as u32,
            bg_inode_bitmap: inode_bitmap as u32,
            bg_inode_table: inode_table as u32,
            bg_free_blocks_count: free_blocks as u16,
            bg_free_inodes_count: free_inodes as u16,
            bg_used_dirs_count: used_dirs as u16,
            bg_pad: 0,
        }
    }
}

impl DiskInode {
    /// The value that the 128 bytes `b` encode.
    pub open spec fn parse(b: Seq<u8>) -> DiskInode {
        DiskInode {
            i_mode: le16(b, 0),
            i_uid: le16(b, 2),
            i_size: le32(b, 4),
            i_atime: le32(b, 8),
            i_ctime: le32(b, 12),
            i_mtime: le32(b, 16),
            i_dtime: le32(b, 20),
            i_gid: le16(b, 24),
            i_links_count: le16(b, 26),
            i_blocks: le32(b, 28),
            i_flags: le32(b, 32),
            i_osd1: le32(b, 36),
            i_generation: le32(b, 100),
            i_file_acl: le32(b, 104),
            i_dir_acl: le32(b, 108),
            i_faddr: le32(b, 112),
            i_osd2: LinuxOSD {
                l_i_frag: b[116],
                l_i_fsize: b[117],
                l_i_uid_high: le16(b, 120),
                l_i_gid_high: le16(b, 122),
            },
        }
    }

    /// The bytes `b` with each field written at its place; the block
    /// pointers and the other bytes between the fields stay.
    pub open spec fn store(self, b: Seq<u8>) -> Seq<u8> {
        let b = patch(b, 0, spec_u16_to_le_bytes(self.i_mode));
        let b = patch(b, 2, spec_u16_to_le_bytes(self.i_uid));
        let b = patch(b, 4, spec_u32_to_le_bytes(self.i_size));
        let b = patch(b, 8, spec_u32_to_le_bytes(self.i_atime));
        let b = patch(b, 12, spec_u32_to_le_bytes(self.i_ctime));
        let b = patch(b, 16, spec_u32_to_le_bytes(self.i_mtime));
        let b = patch(b, 20, spec_u32_to_le_bytes(self.i_dtime));
        let b = patch(b, 24, spec_u16_to_le_bytes(self.i_gid));
        let b = patch(b, 26, spec_u16_to_le_bytes(self.i_links_count));
        let b = patch(b, 28, spec_u32_to_le_bytes(self.i_blocks));
        let b = patch(b, 32, spec_u32_to_le_bytes(self.i_flags));
        let b = patch(b, 36, spec_u32_to_le_bytes(self.i_osd1));
        let b = patch(b, 100, spec_u32_to_le_bytes(self.i_generation));
        let b = patch(b, 104, spec_u32_to_le_bytes(self.i_file_acl));
        let b = patch(b, 108, spec_u32_to_le_bytes(self.i_dir_acl));
        let b = patch(b, 112, spec_u32_to_le_bytes(self.i_faddr));
        let b = patch(b, 116, seq![self.i_osd2.l_i_frag]);
        let b = patch(b, 117, seq![self.i_osd2.l_i_fsize]);
        let b = patch(b, 120, spec_u16_to_le_bytes(self.i_osd2.l_i_uid_high));
        let b = patch(b, 122, spec_u16_to_le_bytes(self.i_osd2.l_i_gid_high));
        b
    }

    /// Decodes the inode that the 128 bytes of `buf` hold.
    pub fn from_bytes(buf: &[u8]) -> (v: DiskInode)
        requires
            buf@.len() == EXT2_GOOD_OLD_INODE_SIZE,
        ensures
            v == DiskInode::parse(buf@),
    {
        DiskInode {
            i_mode: get_u16(buf, 0),
            i_uid: get_u16(buf, 2),
            i_size: get_u32(buf, 4),
            i_atime: get_u32(buf, 8),
            i_ctime: get_u32(buf, 12),
            i_mtime: get_u32(buf, 16),
            i_dtime: get_u32(buf, 20),
            i_gid: get_u16(buf, 24),
            i_links_count: get_u16(buf, 26),
            i_blocks: get_u32(buf, 28),
            i_flags: get_u32(buf, 32),
            i_osd1: get_u32(buf, 36),
            i_generation: get_u32(buf, 100),
            i_file_acl: get_u32(buf, 104),
            i_dir_acl: get_u32(buf, 108),
            i_faddr: get_u32(buf, 112),
            i_osd2: LinuxOSD {
                l_i_frag: buf[116],
                l_i_fsize: buf[117],
                l_i_uid_high: get_u16(buf, 120),
                l_i_gid_high: get_u16(buf, 122),
            },
        }
    }

    /// Writes the fields into `buf`, each at its place.
    pub fn to_bytes(&self, buf: &mut Vec<u8>)
        requires
            old(buf)@.len() == EXT2_GOOD_OLD_INODE_SIZE,
        ensures
            final(buf)@ == self.store(old(buf)@),
            final(buf)@.len() == EXT2_GOOD_OLD_INODE_SIZE,
    {
        put_u16(buf, 0, self.i_mode);
        put_u16(buf, 2, self.i_uid);
        put_u32(buf, 4, self.i_size);
        put_u32(buf, 8, self.i_atime);
        put_u32(buf, 12, self.i_ctime);
        put_u32(buf, 16, self.i_mtime);
        put_u32(buf, 20, self.i_dtime);
        put_u16(buf, 24, self.i_gid);
        put_u16(buf, 26, self.i_links_count);
        put_u32(buf, 28, self.i_blocks);
        put_u32(buf, 32, self.i_flags);
        put_u32(buf, 36, self.i_osd1);
        put_u32(buf, 100, self.i_generation);
        put_u32(buf, 104, self.i_file_acl);
        put_u32(buf, 108, self.i_dir_acl);
        put_u32(buf, 112, self.i_faddr);
        put_u8(buf, 116, self.i_osd2.l_i_frag);
        put_u8(buf, 117, self.i_osd2.l_i_fsize);
        put_u16(buf, 120, self.i_osd2.l_i_uid_high);
        put_u16(buf, 122, self.i_osd2.l_i_gid_high);
    }

    /// What was stored is what is parsed, whatever the bytes held before.
    pub proof fn lemma_store_parse(self, b: Seq<u8>)
        requires
            b.len() == EXT2_GOOD_OLD_INODE_SIZE,
        ensures
            self.store(b).len() == EXT2_GOOD_OLD_INODE_SIZE,
            DiskInode::parse(self.store(b)) == self,
    {
    }

    /// Storing an inode leaves its block pointers as they were.
    pub proof fn lemma_store_keeps_block_map(self, b: Seq<u8>)
        requires
            b.len() == EXT2_GOOD_OLD_INODE_SIZE,
        ensures
            self.store(b).subrange(40, 100) == b.subrange(40, 100),
    {
        assert(self.store(b).subrange(40, 100) =~= b.subrange(40, 100));
    }
    /// The inode of a new file of kind `file_type` with the permissions
    /// `acl_mode`: empty, with one link.
    pub fn new(acl_mode: u16, file_type: u16, uid: u16, gid: u16) -> (inode: DiskInode)
        ensures
            inode == DiskInode::fresh(acl_mode | file_type, uid, gid),
    {
        DiskInode {
            i_mode: acl_mode | file_type,
            i_uid: uid,
            i_size: 0,
            i_atime: 0,
            i_ctime: 0,
            i_mtime: 0,
            i_dtime: 0,
            i_gid: gid,
            i_links_count: 1,
            i_blocks: 0,
            i_flags: 0,
            i_osd1: 0,
            i_generation: 0,
            i_file_acl: 0,
            i_dir_acl: 0,
            i_faddr: 0,
            i_osd2: LinuxOSD::empty(),
        }
    }

    /// An empty inode with one link and the given mode and owner.
    pub open spec fn fresh(mode: u16, uid: u16, gid: u16) -> DiskInode {
        DiskInode {
            i_mode: mode,
            i_uid: uid,
            i_size: 0,
            i_atime: 0,
            i_ctime: 0,
            i_mtime: 0,
            i_dtime: 0,
            i_gid: gid,
            i_links_count: 1,
            i_blocks: 0,
            i_flags: 0,
            i_osd1: 0,
            i_generation: 0,
            i_file_acl: 0,
            i_dir_acl: 0,
            i_faddr: 0,
            i_osd2: LinuxOSD { l_i_frag: 0, l_i_fsize: 0, l_i_uid_high: 0, l_i_gid_high: 0 },
        }
    }

    /// The kind of file, as a directory entry names it.
    pub open spec fn spec_file_code(&self) -> u8 {
        file_code_of(self.i_mode)
    }

    /// The kind of file, as a directory entry names it.
    #[verifier::when_used_as_spec(spec_file_code)]
    pub fn file_code(&self) -> (code: u8)
        ensures
            code == self.spec_file_code(),
    {
        file_code_of_mode(self.i_mode)
    }

    /// The mode says that this is a directory.
    pub open spec fn spec_is_dir(&self) -> bool {
        self.i_mode & EXT2_S_IFMT == EXT2_S_IFDIR
    }

    /// Whether this is a directory.
    #[verifier::when_used_as_spec(spec_is_dir)]
    pub fn is_dir(&self) -> (b: bool)
        ensures
            b == self.spec_is_dir(),
    {
        self.i_mode & EXT2_S_IFMT == EXT2_S_IFDIR
    }

    /// The mode says that this is a regular file.
    pub open spec fn spec_is_file(&self) -> bool {
        self.i_mode & EXT2_S_IFMT == EXT2_S_IFREG
    }

    /// Whether this is a regular file.
    #[verifier::when_used_as_spec(spec_is_file)]
    pub fn is_file(&self) -> (b: bool)
        ensures
            b == self.spec_is_file(),
    {
        self.i_mode & EXT2_S_IFMT == EXT2_S_IFREG
    }
}

impl DirEntryHead {
    /// The value that the 8 bytes `b` encode.
    pub open spec fn parse(b: Seq<u8>) -> DirEntryHead {
        DirEntryHead {
            inode: le32(b, 0),
            rec_len: le16(b, 4),
            name_len: b[6],
            file_type: b[7],
        }
    }

    /// The bytes `b` with each field written at its place; the bytes
    /// between and behind the fields stay.
    pub open spec fn store(self, b: Seq<u8>) -> Seq<u8> {
        let b = patch(b, 0, spec_u32_to_le_bytes(self.inode));
        let b = patch(b, 4, spec_u16_to_le_bytes(self.rec_len));
        let b = patch(b, 6, seq![self.name_len]);
        let b = patch(b, 7, seq![self.file_type]);
        b
    }

    /// Decodes the value that the first 8 bytes of `buf` hold.
    pub fn from_bytes(buf: &[u8]) -> (v: DirEntryHead)
        requires
            buf@.len() == DIR_ENTRY_HEAD_SIZE,
        ensures
            v == DirEntryHead::parse(buf@),
    {
        DirEntryHead {
            inode: get_u32(buf, 0),
            rec_len: get_u16(buf, 4),
            name_len: buf[6],
            file_type: buf[7],
        }
    }

    /// Writes the fields into `buf`, each at its place.
    pub fn to_bytes(&self, buf: &mut Vec<u8>)
        requires
            old(buf)@.len() == DIR_ENTRY_HEAD_SIZE,
        ensures
            final(buf)@ == self.store(old(buf)@),
            final(buf)@.len() == DIR_ENTRY_HEAD_SIZE,
    {
        put_u32(buf, 0, self.inode);
        put_u16(buf, 4, self.rec_len);
        put_u8(buf, 6, self.name_len);
        put_u8(buf, 7, self.file_type);
    }

    /// What was stored is what is parsed, whatever the bytes held before.
    pub proof fn lemma_store_parse(self, b: Seq<u8>)
        requires
            b.len() == DIR_ENTRY_HEAD_SIZE,
        ensures
            self.store(b).len() == DIR_ENTRY_HEAD_SIZE,
            DirEntryHead::parse(self.store(b)) == self,
    {
    }
    /// The head of an entry for `inode` under a name of `name_len` bytes,
    /// which is cut at `MAX_NAME_LEN`.
    pub open spec fn for_name(inode: u32, name_len: nat, file_type: u8) -> DirEntryHead {
        let len = if name_len <= MAX_NAME_LEN { name_len } else { MAX_NAME_LEN as nat };
        DirEntryHead {
            inode,
            rec_len: (DIR_ENTRY_HEAD_SIZE + len) as u16,
            name_len: len as u8,
            file_type,
        }
    }

    /// The head of an entry that gives `inode` the name `name`. A name of
    /// more than `MAX_NAME_LEN` bytes is cut there.
    pub fn create(inode: usize, name: &str, file_type: u8) -> (head: DirEntryHead)
        requires
            inode <= u32::MAX,
        ensures
            head == DirEntryHead::for_name(inode as u32, name.spec_bytes().len(), file_type),
    {
        let full = name.as_bytes().len();
        let name_len = if full <= MAX_NAME_LEN { full } else { MAX_NAME_LEN };
        DirEntryHead {
            inode: inode as u32,
            rec_len: (DIR_ENTRY_HEAD_SIZE + name_len) as u16,
            name_len: name_len as u8,
            file_type,
        }
    }

    /// An entry head of zeros.
    pub fn empty() -> (head: DirEntryHead)
        ensures
            head == (DirEntryHead { inode: 0, rec_len: 0, name_len: 0, file_type: 0 }),
    {
        DirEntryHead { inode: 0, rec_len: 0, name_len: 0, file_type: 0 }
    }
}

impl LinuxOSD {
    /// All fields zero.
    pub fn empty() -> (osd: LinuxOSD)
        ensures
            osd == (LinuxOSD { l_i_frag: 0, l_i_fsize: 0, l_i_uid_high: 0, l_i_gid_high: 0 }),
    {
        LinuxOSD { l_i_frag: 0, l_i_fsize: 0, l_i_uid_high: 0, l_i_gid_high: 0 }
    }
}

/// The kind of file that the mode `mode` tells, as a directory entry names
/// it; `EXT2_FT_UNKNOWN` where the mode tells none.
pub open spec fn file_code_of(mode: u16) -> u8 {
    let kind = mode & EXT2_S_IFMT;
    if kind == EXT2_S_IFREG {
        EXT2_FT_REG_FILE
    } else if kind == EXT2_S_IFDIR {
        EXT2_FT_DIR
    } else if kind == EXT2_S_IFCHR {
        EXT2_FT_CHRDEV
    } else if kind == EXT2_S_IFBLK {
        EXT2_FT_BLKDEV
    } else if kind == EXT2_S_IFIFO {
        EXT2_FT_FIFO
    } else if kind == EXT2_S_IFSOCK {
        EXT2_FT_SOCK
    } else if kind == EXT2_S_IFLNK {
        EXT2_FT_SYMLINK
    } else {
        EXT2_FT_UNKNOWN
    }
}

/// The kind of file that a mode stands for, as a directory entry
/// records it.
pub fn file_code_of_mode(mode: u16) -> (code: u8)
    ensures
        code == file_code_of(mode),
{
    let kind = mode & EXT2_S_IFMT;
    if kind == EXT2_S_IFREG {
        EXT2_FT_REG_FILE
    } else if kind == EXT2_S_IFDIR {
        EXT2_FT_DIR
    } else if kind == EXT2_S_IFCHR {
        EXT2_FT_CHRDEV
    } else if kind == EXT2_S_IFBLK {
        EXT2_FT_BLKDEV
    } else if kind == EXT2_S_IFIFO {
        EXT2_FT_FIFO
    } else if kind == EXT2_S_IFSOCK {
        EXT2_FT_SOCK
    } else if kind == EXT2_S_IFLNK {
        EXT2_FT_SYMLINK
    } else {
        EXT2_FT_UNKNOWN
    }
}

/// Patching the two bytes of `rec_len` into the head of a directory entry
/// changes that field alone.
pub proof fn lemma_rec_len_patched(head: Seq<u8>, rec_len: u16)
    requires
        head.len() == DIR_ENTRY_HEAD_SIZE,
    ensures
        DirEntryHead::parse(patch(head, 4, vstd::bytes::spec_u16_to_le_bytes(rec_len))) == (DirEntryHead {
            rec_len,
            ..DirEntryHead::parse(head)
        }),
{
}

} // verus!
