//! Files and directories: the operations on one inode.
use vstd::prelude::*;
use vstd::string::StringSliceAdditionalSpecFns;
use vstd::utf8::{decode_utf8, valid_utf8};
use crate::block_dev::BlockDevice;
use crate::block_map::{
    blocks_added, blocks_between, blocks_for, blocks_mapped, blocks_needed, end_block, file_bytes,
    lemma_blocks_between_bound, lemma_only_map_changed_refl, lemma_only_map_changed_trans,
    only_data_changed, only_map_changed, read_len, InodePos, MAX_SIZE_BLOCKS,
};
use crate::codec::{get_u16, zeroed};
use crate::config::{BLOCK_SIZE, EXT2_GOOD_OLD_INODE_SIZE};
use crate::dir::{
    entry_bytes, entry_head, find_entry, lemma_appended, lemma_entry_bytes, lemma_found_behind, lemma_found_reach,
    lemma_others_stay, lemma_place, lemma_skip_at,
    lemma_skip_last, lemma_unlinked, list_names, lookup, make_entry, names, names_skip, reaching, stored_name, tiled,
    views, FoundEntry, Lookup,
};
use crate::efs::{inode_pos, Ext2FileSystem, FsView};
use crate::error::Ext2Error;
use crate::layout::{
    file_code_of, file_code_of_mode, DEFAULT_IMODE, DirEntryHead, DiskInode, EXT2_FT_DIR,
    EXT2_FT_REG_FILE, EXT2_FT_SYMLINK, EXT2_FT_UNKNOWN, EXT2_S_IFDIR, EXT2_S_IFLNK, EXT2_S_IFMT,
    IMODE_MASK,
};
use crate::tree::tidy;
use crate::sound::{
    apart, byte_at, bytes_of, grown, lemma_apart_empty, lemma_apart_sym, lemma_bytes_of,
    lemma_counted_refl, lemma_counted_trans, lemma_grown_bytes, lemma_grown_stepped,
    lemma_inode_written, lemma_low_quiet, lemma_meta_quiet, lemma_meta_stepped, lemma_other_quiet,
    lemma_quiet, lemma_quiet_trans, lemma_same_less, lemma_same_trans, lemma_shrunk,
    lemma_shrunk_stepped, lemma_slot_quiet, lemma_sound_less, lemma_stepped_refl,
    lemma_stepped_trans, lemma_written_counted, only_blocks_counted, quiet_for, same_bytes,
    same_ways, sound, sound_place, stepped, Fresh,
};

verus! {

/// A handle on a file or directory: the number of its inode, where the
/// inode is stored, and the kind of file as far as the handle knows it.
#[derive(Clone, Copy, Debug)]
pub struct Inode {
    pub inode_id: usize,
    pub block_id: usize,
    pub block_offset: usize,
    pub file_type: u8,
}

/// Sectors of 512 bytes in one block.
pub const SECTORS_PER_BLOCK: u32 = 8;

impl Inode {
    /// The handle names an inode of the file system `v` and the place where
    /// that inode is stored.
    pub open spec fn valid(&self, v: FsView) -> bool {
        &&& 1 <= self.inode_id <= v.super_block.s_inodes_count
        &&& inode_pos(v.groups, self.inode_id as int) == (self.block_id as int, self.block_offset as int)
    }

    /// Where the inode is stored.
    pub open spec fn pos(&self) -> InodePos {
        InodePos { block: self.block_id as int, off: self.block_offset as int }
    }

    /// The inode as the disk of `v` holds it.
    pub open spec fn inode(&self, v: FsView) -> DiskInode {
        v.disk_inode(self.block_id as int, self.block_offset as int)
    }

    /// The content of the file in `v`.
    pub open spec fn content(&self, v: FsView) -> Seq<u8> {
        file_bytes(v, self.pos(), 0, self.inode(v).i_size as int)
    }

    /// Every block of the file can be found in `v`.
    pub open spec fn mapped(&self, v: FsView) -> bool {
        blocks_mapped(v, self.pos(), 0, blocks_for(self.inode(v).i_size as int))
    }

    /// A valid handle stays valid while the geometry stays, and is stored
    /// in a block of the device that is no bitmap and not for data.
    pub proof fn lemma_valid(&self, v: FsView, w: FsView)
        requires
            v.wf(),
            self.valid(v),
            v.same_geometry(w),
        ensures
            self.valid(w),
            self.block_id < v.super_block.s_blocks_count,
            self.block_id < v.disk.len(),
            self.block_offset + EXT2_GOOD_OLD_INODE_SIZE <= BLOCK_SIZE,
            self.block_offset % 128 == 0,
            !v.is_bitmap(self.block_id as int),
            !v.is_data(self.block_id as int),
            sound_place(v, self.pos()),
            sound_place(w, self.pos()),
    {
        v.lemma_inode_pos(self.inode_id as int);
        v.lemma_same_geometry(w);
    }

    /// The block map fits the size and the count of sectors of `inode`,
    /// and is sound for so many blocks.
    pub open spec fn sound_for(&self, v: FsView, inode: DiskInode) -> bool {
        &&& sound(v, self.pos(), blocks_for(inode.i_size as int))
        &&& inode.i_blocks == SECTORS_PER_BLOCK * blocks_between(0, blocks_for(inode.i_size as int))
    }

    /// The handle is valid and the block map of the file is sound: every
    /// block on the way to a block of the file is a block for data that is
    /// marked as used, no block is reached on two ways, the count of
    /// sectors is that of the blocks, and the inode is marked as used.
    pub open spec fn sound(&self, v: FsView) -> bool {
        self.valid(v) && self.sound_for(v, self.inode(v)) && v.inode_used(self.inode_id as int)
    }

    /// The bytes of the file, read from its data blocks.
    pub open spec fn bytes(&self, v: FsView) -> Seq<u8> {
        bytes_of(v, self.pos(), 0, self.inode(v).i_size as int)
    }

    /// From `v` to `w` the file has kept to blocks of its own and to blocks
    /// that were free: every other block for data that was marked as used
    /// is as it was, and marked.
    pub open spec fn kept_to_itself(&self, v: FsView, w: FsView) -> bool {
        stepped(
            v,
            w,
            self.pos(),
            blocks_for(self.inode(v).i_size as int),
            blocks_for(self.inode(w).i_size as int),
        )
    }

    /// A sound directory whose content is a row of whole entries.
    pub open spec fn dir_sound(&self, v: FsView) -> bool {
        self.sound(v) && self.inode(v).spec_is_dir() && tiled(self.bytes(v))
    }

    /// From `v` to `w` the file was left alone: the bytes of its inode are
    /// as they were, and so is every block on its ways.
    pub open spec fn quiet(&self, v: FsView, w: FsView) -> bool {
        &&& quiet_for(v, w, self.pos(), blocks_for(self.inode(v).i_size as int))
        &&& w.inode_used(self.inode_id as int) == v.inode_used(self.inode_id as int)
    }

    /// This file and `other` are two, and no block is reached on a way of
    /// both.
    pub open spec fn apart_from(&self, other: Inode, v: FsView) -> bool {
        &&& self.inode_id != other.inode_id
        &&& apart(
            v,
            self.pos(),
            blocks_for(self.inode(v).i_size as int),
            other.pos(),
            blocks_for(other.inode(v).i_size as int),
        )
    }

    /// A sound file that was left alone is sound as before and holds what
    /// it held.
    pub proof fn lemma_left_alone(&self, v: FsView, w: FsView)
        requires
            v.wf(),
            self.sound(v),
            self.quiet(v, w),
        ensures
            self.sound(w),
            self.inode(w) == self.inode(v),
            self.bytes(w) == self.bytes(v),
            self.content(w) == self.content(v),
    {
        let nb = blocks_for(self.inode(v).i_size as int);
        lemma_quiet(v, w, self.pos(), nb);
        self.lemma_valid(v, w);
        assert(self.inode(w) == self.inode(v));
        assert(self.bytes(w) =~= self.bytes(v));
        self.lemma_content(v);
        self.lemma_content(w);
    }

    /// What a sound file does to itself leaves another sound file alone,
    /// where the two are apart; and they are apart afterwards.
    pub proof fn lemma_leaves_alone(&self, other: Inode, v: FsView, w: FsView)
        requires
            v.wf(),
            w.wf(),
            self.valid(v),
            other.sound(v),
            self.apart_from(other, v),
            v.same_geometry(w),
            self.kept_to_itself(v, w),
            only_file_changed(v, w, self.pos()),
            w.inode_used(other.inode_id as int) == v.inode_used(other.inode_id as int),
        ensures
            other.quiet(v, w),
            other.sound(w),
            other.inode(w) == other.inode(v),
            other.bytes(w) == other.bytes(v),
            self.apart_from(other, w),
    {
        self.lemma_valid(v, w);
        other.lemma_valid(v, w);
        v.lemma_pos_apart(self.inode_id as int, other.inode_id as int);
        lemma_other_quiet(
            v,
            w,
            self.pos(),
            blocks_for(self.inode(v).i_size as int),
            blocks_for(self.inode(w).i_size as int),
            other.pos(),
            blocks_for(other.inode(v).i_size as int),
        );
        other.lemma_left_alone(v, w);
    }

    /// Writing into the place of another inode leaves a sound file alone.
    pub proof fn lemma_slot_written(&self, other: Inode, v: FsView, at: int, bytes: Seq<u8>)
        requires
            v.wf(),
            self.sound(v),
            other.valid(v),
            other.inode_id != self.inode_id,
            other.block_offset <= at,
            at + bytes.len() <= other.block_offset + 128,
        ensures
            self.quiet(v, v.written(other.block_id as int, at, bytes)),
            self.sound(v.written(other.block_id as int, at, bytes)),
            self.inode(v.written(other.block_id as int, at, bytes)) == self.inode(v),
            self.bytes(v.written(other.block_id as int, at, bytes)) == self.bytes(v),
    {
        self.lemma_valid(v, v);
        other.lemma_valid(v, v);
        v.lemma_pos_apart(self.inode_id as int, other.inode_id as int);
        v.lemma_written_marks(other.block_id as int, at, bytes);
        lemma_slot_quiet(
            v,
            other.block_id as int,
            other.block_offset as int,
            at,
            bytes,
            self.pos(),
            blocks_for(self.inode(v).i_size as int),
        );
        self.lemma_left_alone(v, v.written(other.block_id as int, at, bytes));
    }

    /// Storing the inode of a sound file with the size and the count of
    /// sectors that it had leaves the file sound, with the bytes it held.
    pub proof fn lemma_restored(&self, v: FsView, inode: DiskInode)
        requires
            v.wf(),
            self.sound(v),
            inode.i_size == self.inode(v).i_size,
            inode.i_blocks == self.inode(v).i_blocks,
        ensures
            self.sound(v.inode_written(self.block_id as int, self.block_offset as int, inode)),
            self.bytes(v.inode_written(self.block_id as int, self.block_offset as int, inode)) == self.bytes(v),
            self.kept_to_itself(v, v.inode_written(self.block_id as int, self.block_offset as int, inode)),
            self.inode(v.inode_written(self.block_id as int, self.block_offset as int, inode)) == inode,
    {
        let w = v.inode_written(self.block_id as int, self.block_offset as int, inode);
        let nb = blocks_for(inode.i_size as int);
        self.lemma_valid(v, v);
        v.lemma_blocks();
        let region = v.disk[self.block_id as int].subrange(self.block_offset as int, self.block_offset + 128);
        inode.lemma_store_parse(region);
        v.lemma_written_marks(self.block_id as int, self.block_offset as int, inode.store(region));
        crate::codec::lemma_patch_read(v.disk[self.block_id as int], self.block_offset as int, inode.store(region));
        lemma_inode_written(v, self.pos(), nb, self.block_id as int, self.block_offset as int, inode);
        self.lemma_inode_stepped(v, nb, inode);
        self.lemma_valid(v, w);
        assert(self.bytes(w) =~= self.bytes(v));
    }

    /// The file can grow to `new_size` bytes: it is as long already, or as
    /// many blocks are free as it lacks.
    pub open spec fn can_grow(&self, v: FsView, new_size: int) -> bool {
        new_size <= self.inode(v).i_size || v.super_block.s_free_blocks_count >= blocks_between(
            blocks_for(self.inode(v).i_size as int),
            blocks_for(new_size),
        )
    }

    /// `w` is `v` after `data` was written into the sound file from byte
    /// `offset` on: the file is sound, reaches as far as was written, holds
    /// `data` there, and holds what it held wherever it was not written.
    pub open spec fn wrote(&self, v: FsView, w: FsView, offset: int, data: Seq<u8>) -> bool {
        let size = self.inode(v).i_size as int;
        let end = offset + data.len();
        &&& self.sound(w)
        &&& self.inode(w).i_size == if end > size {
            end
        } else {
            size
        }
        &&& self.bytes(w).subrange(offset, end) == data
        &&& forall|i: int| 0 <= i < size && !(offset <= i < end) ==> #[trigger] self.bytes(w)[i] == self.bytes(v)[i]
        &&& self.kept_to_itself(v, w)
    }

    /// `w` is `v` after the sound file was read, and `out` is what a
    /// reader who wanted `want` bytes from byte `offset` on was given: the
    /// file is as it was, and `out` holds its bytes from `offset` on, as
    /// many as were wanted and the file has.
    pub open spec fn was_read(&self, v: FsView, w: FsView, offset: int, want: int, out: Seq<u8>) -> bool {
        let n = read_len(self.inode(v).i_size as int, offset, want);
        &&& self.sound(w)
        &&& self.inode(w).i_size == self.inode(v).i_size
        &&& self.bytes(w) == self.bytes(v)
        &&& out == bytes_of(v, self.pos(), offset, offset + n)
        &&& self.kept_to_itself(v, w)
    }

    /// `w` is `v` after the size of the sound file was set to `new_size`:
    /// the file is sound, has that size, and holds what it held as far as
    /// the old and the new size both reach.
    pub open spec fn resized(&self, v: FsView, w: FsView, new_size: int) -> bool {
        let size = self.inode(v).i_size as int;
        &&& self.sound(w)
        &&& self.inode(w).i_size == new_size
        &&& forall|i: int| 0 <= i < size && i < new_size ==> #[trigger] self.bytes(w)[i] == self.bytes(v)[i]
        &&& self.kept_to_itself(v, w)
    }

    /// On a sound file the content that reading finds is the bytes of its
    /// data blocks, and every block of the file is found.
    pub proof fn lemma_content(&self, v: FsView)
        requires
            self.sound(v),
        ensures
            self.content(v) == self.bytes(v),
            self.mapped(v),
    {
        let size = self.inode(v).i_size as int;
        lemma_bytes_of(v, self.pos(), blocks_for(size), 0, size);
    }

    /// A handle on the inode `inode_id`, stored at byte `block_offset` of
    /// block `block_id`; the kind of file is read from the inode.
    pub fn new<D: BlockDevice>(
        fs: &mut Ext2FileSystem<D>,
        inode_id: usize,
        block_id: usize,
        block_offset: usize,
    ) -> (inode: Inode)
        requires
            old(fs).wf(),
            1 <= inode_id <= old(fs)@.super_block.s_inodes_count,
            inode_pos(old(fs)@.groups, inode_id as int) == (block_id as int, block_offset as int),
        ensures
            final(fs).wf(),
            final(fs)@ == old(fs)@,
            inode.valid(old(fs)@),
            inode.inode_id == inode_id,
            inode.file_type == inode.inode(old(fs)@).spec_file_code(),
    {
        let mut inode = Inode { inode_id, block_id, block_offset, file_type: EXT2_FT_UNKNOWN };
        inode.read_file_type(fs);
        inode
    }

    /// The inode as the disk holds it.
    pub fn read_disk_inode<D: BlockDevice>(&self, fs: &mut Ext2FileSystem<D>) -> (inode: DiskInode)
        requires
            old(fs).wf(),
            self.valid(old(fs)@),
        ensures
            final(fs).wf(),
            final(fs)@ == old(fs)@,
            inode == self.inode(old(fs)@),
    {
        proof {
            self.lemma_valid(fs@, fs@);
        }
        fs.read_disk_inode(self.block_id, self.block_offset)
    }

    /// Stores `inode` as this handle's inode; the block pointers stay.
    pub fn modify_disk_inode<D: BlockDevice>(&self, fs: &mut Ext2FileSystem<D>, inode: &DiskInode)
        requires
            old(fs).wf(),
            self.valid(old(fs)@),
        ensures
            final(fs).wf(),
            final(fs)@ == old(fs)@.inode_written(self.block_id as int, self.block_offset as int, *inode),
            self.inode(final(fs)@) == *inode,
            self.valid(final(fs)@),
            old(fs)@.same_geometry(final(fs)@),
    {
        proof {
            self.lemma_valid(fs@, fs@);
        }
        fs.write_disk_inode(self.block_id, self.block_offset, inode);
        proof {
            self.lemma_valid(old(fs)@, fs@);
        }
    }

    /// Learns the kind of file from the inode, unless the handle knows it.
    pub fn read_file_type<D: BlockDevice>(&mut self, fs: &mut Ext2FileSystem<D>)
        requires
            old(fs).wf(),
            old(self).valid(old(fs)@),
        ensures
            final(fs).wf(),
            final(fs)@ == old(fs)@,
            *final(self) == (Inode {
                file_type: if old(self).file_type == EXT2_FT_UNKNOWN {
                    old(self).inode(old(fs)@).spec_file_code()
                } else {
                    old(self).file_type
                },
                ..*old(self)
            }),
    {
        if self.file_type == EXT2_FT_UNKNOWN {
            let inode = self.read_disk_inode(fs);
            self.file_type = inode.file_code();
        }
    }

    /// The kind of file: what the handle knows, else what the inode says.
    pub fn file_type<D: BlockDevice>(&self, fs: &mut Ext2FileSystem<D>) -> (code: u8)
        requires
            old(fs).wf(),
            self.valid(old(fs)@),
        ensures
            final(fs).wf(),
            final(fs)@ == old(fs)@,
            code == if self.file_type == EXT2_FT_UNKNOWN {
                self.inode(old(fs)@).spec_file_code()
            } else {
                self.file_type
            },
    {
        if self.file_type == EXT2_FT_UNKNOWN {
            let inode = self.read_disk_inode(fs);
            inode.file_code()
        } else {
            self.file_type
        }
    }

    /// Sets the owner, the group, or both, and stamps the change.
    pub fn chown<D: BlockDevice>(&self, fs: &mut Ext2FileSystem<D>, uid: Option<u16>, gid: Option<u16>)
        requires
            old(fs).wf(),
            self.valid(old(fs)@),
        ensures
            final(fs).wf(),
            self.valid(final(fs)@),
            old(fs)@.same_geometry(final(fs)@),
            final(fs)@ == old(fs)@.inode_written(
                self.block_id as int,
                self.block_offset as int,
                self.inode(final(fs)@),
            ),
            self.inode(final(fs)@) == (DiskInode {
                i_uid: if let Some(u) = uid {
                    u
                } else {
                    self.inode(old(fs)@).i_uid
                },
                i_gid: if let Some(g) = gid {
                    g
                } else {
                    self.inode(old(fs)@).i_gid
                },
                i_mtime: old(fs)@.time,
                ..self.inode(old(fs)@)
            }),
    {
        let mut inode = self.read_disk_inode(fs);
        if let Some(u) = uid {
            inode.i_uid = u;
        }
        if let Some(g) = gid {
            inode.i_gid = g;
        }
        inode.i_mtime = fs.cur_time;
        self.modify_disk_inode(fs, &inode);
    }

    /// Replaces the twelve permission bits by those of `access`, and stamps
    /// the change.
    pub fn chmod<D: BlockDevice>(&self, fs: &mut Ext2FileSystem<D>, access: u16)
        requires
            old(fs).wf(),
            self.valid(old(fs)@),
        ensures
            final(fs).wf(),
            self.valid(final(fs)@),
            old(fs)@.same_geometry(final(fs)@),
            final(fs)@ == old(fs)@.inode_written(
                self.block_id as int,
                self.block_offset as int,
                self.inode(final(fs)@),
            ),
            self.inode(final(fs)@) == (DiskInode {
                i_mode: (self.inode(old(fs)@).i_mode & EXT2_S_IFMT) | (access & IMODE_MASK),
                i_ctime: old(fs)@.time,
                i_atime: old(fs)@.time,
                ..self.inode(old(fs)@)
            }),
    {
        let mut inode = self.read_disk_inode(fs);
        inode.i_mode = (inode.i_mode & EXT2_S_IFMT) | (access & IMODE_MASK);
        inode.i_ctime = fs.cur_time;
        inode.i_atime = fs.cur_time;
        self.modify_disk_inode(fs, &inode);
    }

    /// Reads from the file: stamps the access, then fills the front of
    /// `buf` with the bytes from `offset` on, as far as the file and `buf`
    /// go, and returns their number. Fails with `Corruption` where a block
    /// of the file cannot be found, which does not happen where the block
    /// map is sound.
    pub fn read_at<D: BlockDevice>(&self, fs: &mut Ext2FileSystem<D>, offset: usize, buf: &mut Vec<u8>) -> (r:
        Result<usize, Ext2Error>)
        requires
            old(fs).wf(),
            self.valid(old(fs)@),
        ensures
            final(fs).wf(),
            self.valid(final(fs)@),
            old(fs)@.same_geometry(final(fs)@),
            final(fs)@ == old(fs)@.inode_written(
                self.block_id as int,
                self.block_offset as int,
                DiskInode { i_atime: old(fs)@.time, ..self.inode(old(fs)@) },
            ),
            final(buf)@.len() == old(buf)@.len(),
            ({
                let v = final(fs)@;
                let n = read_len(self.inode(v).i_size as int, offset as int, old(buf)@.len() as int);
                &&& r is Ok <==> blocks_mapped(
                    v,
                    self.pos(),
                    offset as int / BLOCK_SIZE as int,
                    end_block(offset as int, n),
                )
                &&& match r {
                    Ok(k) => {
                        &&& k == n
                        &&& final(buf)@.subrange(0, n) == file_bytes(v, self.pos(), offset as int, offset + n)
                        &&& final(buf)@.subrange(n, old(buf)@.len() as int) == old(buf)@.subrange(
                            n,
                            old(buf)@.len() as int,
                        )
                    },
                    Err(e) => e == Ext2Error::Corruption,
                }
            }),
            self.sound(old(fs)@) ==> (r matches Ok(k) && self.was_read(
                old(fs)@,
                final(fs)@,
                offset as int,
                old(buf)@.len() as int,
                final(buf)@.subrange(0, k as int),
            )),
    {
        let mut inode = self.read_disk_inode(fs);
        inode.i_atime = fs.cur_time;
        self.modify_disk_inode(fs, &inode);
        proof {
            self.lemma_valid(old(fs)@, fs@);
            if self.sound(old(fs)@) {
                let v = old(fs)@;
                let size = inode.i_size as int;
                let nb = blocks_for(size);
                lemma_inode_written(v, self.pos(), nb, self.block_id as int, self.block_offset as int, inode);
                self.lemma_restored(v, inode);
                lemma_bytes_of(fs@, self.pos(), nb, 0, size);
                let n = read_len(size, offset as int, old(buf)@.len() as int);
                if n > 0 {
                    lemma_bytes_of(fs@, self.pos(), nb, offset as int, offset + n);
                }
                assert(self.bytes(fs@) =~= self.bytes(v));
                assert(bytes_of(fs@, self.pos(), offset as int, offset + n) =~= bytes_of(
                    v,
                    self.pos(),
                    offset as int,
                    offset + n,
                ));
                assert(file_bytes(fs@, self.pos(), offset as int, offset + n) =~= bytes_of(
                    fs@,
                    self.pos(),
                    offset as int,
                    offset + n,
                )) by {
                    if n == 0 {
                    }
                }
                assert forall|m: int| offset as int / BLOCK_SIZE as int <= m < end_block(offset as int, n) implies (
                #[trigger] crate::block_map::file_block(fs@, self.pos(), m)) is Some by {
                    assert(0 <= m < nb);
                }
            }
        }
        fs.read_data(self.block_id, self.block_offset, inode.i_size as usize, offset, buf)
    }

    /// Makes room for `new_size` bytes: gives the file every block it
    /// lacks, and sets the size and the count of sectors in `inode`, which
    /// the caller stores. A size that is not greater than the file's
    /// changes nothing. Fails with `NoSpace`, and changes nothing, where
    /// fewer blocks are free than the file lacks. On a sound block map
    /// nothing else fails, and what the file held it holds.
    pub fn increase_size<D: BlockDevice>(&self, fs: &mut Ext2FileSystem<D>, new_size: u32, inode: &mut DiskInode) -> (r:
        Result<(), Ext2Error>)
        requires
            old(fs).wf(),
            self.valid(old(fs)@),
        ensures
            final(fs).wf(),
            old(fs)@.same_geometry(final(fs)@),
            self.valid(final(fs)@),
            only_blocks_counted(old(fs)@, final(fs)@),
            only_map_changed(old(fs)@, final(fs)@, self.pos()),
            ({
                let need = blocks_between(blocks_for(old(inode).i_size as int), blocks_for(new_size as int));
                match r {
                    Ok(_) => {
                        &&& *final(inode) == if new_size <= old(inode).i_size {
                            *old(inode)
                        } else {
                            DiskInode {
                                i_size: new_size,
                                i_blocks: (old(inode).i_blocks + SECTORS_PER_BLOCK * need) as u32,
                                ..*old(inode)
                            }
                        }
                        &&& new_size <= old(inode).i_size ==> final(fs)@ == old(fs)@
                        &&& new_size > old(inode).i_size ==> final(fs)@.super_block.s_free_blocks_count == old(fs)@.super_block.s_free_blocks_count - need
                    },
                    Err(e) => {
                        &&& *final(inode) == *old(inode)
                        &&& new_size > old(inode).i_size
                        &&& e == Ext2Error::NoSpace || e == Ext2Error::Corruption
                        &&& e == Ext2Error::NoSpace <==> old(fs)@.super_block.s_free_blocks_count < need
                        &&& e == Ext2Error::NoSpace ==> final(fs)@ == old(fs)@
                    },
                }
            }),
            self.sound_for(old(fs)@, *old(inode)) ==> {
                let nb = blocks_for(old(inode).i_size as int);
                &&& (r matches Err(e) ==> e == Ext2Error::NoSpace)
                &&& r is Ok ==> {
                    &&& self.sound_for(final(fs)@, *final(inode))
                    &&& same_ways(old(fs)@, final(fs)@, self.pos(), nb)
                    &&& same_bytes(old(fs)@, final(fs)@, self.pos(), nb)
                    &&& stepped(old(fs)@, final(fs)@, self.pos(), nb, blocks_for(final(inode).i_size as int))
                }
            },
    {
        let ghost v0 = fs@;
        let ghost pos = self.pos();
        proof {
            self.lemma_valid(v0, v0);
            lemma_counted_refl(v0);
            lemma_only_map_changed_refl(v0, pos);
            lemma_stepped_refl(v0, pos, blocks_for(inode.i_size as int));
        }
        if new_size <= inode.i_size {
            return Ok(());
        }
        let from = blocks_of(inode.i_size);
        let to = blocks_of(new_size);
        let need = blocks_needed(from, to);
        proof {
            lemma_blocks_between_bound(from as int, to as int);
            lemma_blocks_between_bound(0, from as int);
            lemma_blocks_between_split(0, from as int, to as int);
        }
        if (fs.super_block.s_free_blocks_count as usize) < need {
            return Err(Ext2Error::NoSpace);
        }
        if inode.i_blocks > u32::MAX - SECTORS_PER_BLOCK * (need as u32) {
            return Err(Ext2Error::Corruption);
        }
        let mut n = from;
        while n < to
            invariant
                fs.wf(),
                v0 == old(fs)@,
                v0.wf(),
                v0.same_geometry(fs@),
                self.valid(v0),
                pos == self.pos(),
                only_blocks_counted(v0, fs@),
                only_map_changed(v0, fs@, pos),
                from <= n <= to <= MAX_SIZE_BLOCKS,
                *inode == *old(inode),
                new_size > inode.i_size,
                from == blocks_for(inode.i_size as int),
                to == blocks_for(new_size as int),
                need == blocks_between(from as int, to as int),
                v0.super_block.s_free_blocks_count >= need,
                fs@.super_block.s_free_blocks_count == v0.super_block.s_free_blocks_count - blocks_between(
                    from as int,
                    n as int,
                ),
                sound(v0, pos, from as int) ==> {
                    &&& sound(fs@, pos, n as int)
                    &&& same_ways(v0, fs@, pos, from as int)
                    &&& same_bytes(v0, fs@, pos, from as int)
                    &&& stepped(v0, fs@, pos, from as int, n as int)
                },
            decreases to - n,
        {
            proof {
                self.lemma_valid(v0, fs@);
                lemma_blocks_between_split(from as int, n as int, to as int);
                lemma_blocks_between_split(n as int, n as int + 1, to as int);
                lemma_blocks_between_bound(n as int + 1, to as int);
                assert(blocks_between(n as int, n as int + 1) == blocks_added(n as int)) by {
                    reveal_with_fuel(blocks_between, 2);
                }
            }
            let ghost cur = fs@;
            match fs.add_block(self.block_id, self.block_offset, n) {
                Ok(_) => {},
                Err(e) => {
                    proof {
                        self.lemma_valid(v0, fs@);
                    }
                    return Err(Ext2Error::Corruption);
                },
            }
            proof {
                let next = fs@;
                lemma_counted_trans(v0, cur, next);
                lemma_only_map_changed_trans(v0, cur, next, pos);
                if sound(v0, pos, from as int) {
                    let f = choose|f: Fresh| grown(cur, next, pos, n as int, f);
                    lemma_grown_bytes(cur, next, pos, n as int, f);
                    lemma_same_less(cur, next, pos, n as int, from as int);
                    lemma_same_trans(v0, cur, next, pos, from as int);
                    lemma_grown_stepped(cur, next, pos, n as int, f);
                    lemma_stepped_trans(v0, cur, next, pos, from as int, n as int, n + 1);
                }
            }
            n += 1;
        }
        proof {
            self.lemma_valid(v0, fs@);
        }
        inode.i_size = new_size;
        inode.i_blocks = inode.i_blocks + SECTORS_PER_BLOCK * (need as u32);
        Ok(())
    }

    /// Cuts the file down to `new_size` bytes: gives back every block
    /// behind the last that is needed, and sets the size and the count of
    /// sectors in `inode`, which the caller stores. A size that is not
    /// smaller than the file's changes nothing. On a sound block map
    /// nothing fails, and what is left of the file holds what it held.
    pub fn decrease_size<D: BlockDevice>(&self, fs: &mut Ext2FileSystem<D>, new_size: u32, inode: &mut DiskInode) -> (r:
        Result<(), Ext2Error>)
        requires
            old(fs).wf(),
            self.valid(old(fs)@),
        ensures
            final(fs).wf(),
            old(fs)@.same_geometry(final(fs)@),
            self.valid(final(fs)@),
            only_blocks_counted(old(fs)@, final(fs)@),
            only_map_changed(old(fs)@, final(fs)@, self.pos()),
            ({
                let back = blocks_between(blocks_for(new_size as int), blocks_for(old(inode).i_size as int));
                match r {
                    Ok(_) => {
                        &&& *final(inode) == if new_size >= old(inode).i_size {
                            *old(inode)
                        } else {
                            DiskInode {
                                i_size: new_size,
                                i_blocks: (old(inode).i_blocks - SECTORS_PER_BLOCK * back) as u32,
                                ..*old(inode)
                            }
                        }
                        &&& new_size >= old(inode).i_size ==> final(fs)@ == old(fs)@
                        &&& new_size < old(inode).i_size ==> final(fs)@.super_block.s_free_blocks_count == old(fs)@.super_block.s_free_blocks_count + back
                    },
                    Err(e) => e == Ext2Error::Corruption && new_size < old(inode).i_size,
                }
            }),
            self.sound_for(old(fs)@, *old(inode)) ==> {
                let nb = if new_size < old(inode).i_size {
                    blocks_for(new_size as int)
                } else {
                    blocks_for(old(inode).i_size as int)
                };
                &&& r is Ok
                &&& self.sound_for(final(fs)@, *final(inode))
                &&& same_ways(old(fs)@, final(fs)@, self.pos(), nb)
                &&& same_bytes(old(fs)@, final(fs)@, self.pos(), nb)
                &&& stepped(old(fs)@, final(fs)@, self.pos(), blocks_for(old(inode).i_size as int), nb)
            },
    {
        let ghost v0 = fs@;
        let ghost pos = self.pos();
        proof {
            self.lemma_valid(v0, v0);
            lemma_counted_refl(v0);
            lemma_only_map_changed_refl(v0, pos);
            lemma_stepped_refl(v0, pos, blocks_for(inode.i_size as int));
        }
        if new_size >= inode.i_size {
            return Ok(());
        }
        let to = blocks_of(inode.i_size);
        let from = blocks_of(new_size);
        let back = blocks_needed(from, to);
        proof {
            lemma_blocks_between_bound(from as int, to as int);
            lemma_blocks_between_bound(0, from as int);
            lemma_blocks_between_split(0, from as int, to as int);
        }
        if inode.i_blocks < SECTORS_PER_BLOCK * (back as u32) {
            return Err(Ext2Error::Corruption);
        }
        proof {
            lemma_stepped_refl(v0, pos, to as int);
        }
        let mut n = to;
        while n > from
            invariant
                fs.wf(),
                v0 == old(fs)@,
                v0.wf(),
                v0.same_geometry(fs@),
                self.valid(v0),
                pos == self.pos(),
                only_blocks_counted(v0, fs@),
                only_map_changed(v0, fs@, pos),
                from <= n <= to <= MAX_SIZE_BLOCKS,
                *inode == *old(inode),
                new_size < inode.i_size,
                from == blocks_for(new_size as int),
                to == blocks_for(inode.i_size as int),
                back == blocks_between(from as int, to as int),
                fs@.super_block.s_free_blocks_count == v0.super_block.s_free_blocks_count + blocks_between(
                    n as int,
                    to as int,
                ),
                sound(v0, pos, to as int) ==> {
                    &&& sound(fs@, pos, n as int)
                    &&& same_ways(v0, fs@, pos, from as int)
                    &&& same_bytes(v0, fs@, pos, from as int)
                    &&& stepped(v0, fs@, pos, to as int, n as int)
                },
            decreases n,
        {
            proof {
                self.lemma_valid(v0, fs@);
                lemma_blocks_between_split(n as int - 1, n as int, to as int);
                lemma_blocks_between_bound(n as int, to as int);
                assert(blocks_between(n as int - 1, n as int) == blocks_added(n as int - 1)) by {
                    reveal_with_fuel(blocks_between, 2);
                }
            }
            let ghost cur = fs@;
            match fs.remove_block(self.block_id, self.block_offset, n - 1) {
                Ok(_) => {},
                Err(e) => {
                    proof {
                        self.lemma_valid(v0, fs@);
                        lemma_counted_trans(v0, cur, fs@);
                        lemma_only_map_changed_trans(v0, cur, fs@, pos);
                    }
                    return Err(Ext2Error::Corruption);
                },
            }
            proof {
                let next = fs@;
                lemma_counted_trans(v0, cur, next);
                lemma_only_map_changed_trans(v0, cur, next, pos);
                if sound(v0, pos, to as int) {
                    lemma_shrunk(cur, next, pos, n as int - 1);
                    lemma_same_less(cur, next, pos, n as int - 1, from as int);
                    lemma_same_trans(v0, cur, next, pos, from as int);
                    lemma_shrunk_stepped(cur, next, pos, n as int - 1);
                    lemma_stepped_trans(v0, cur, next, pos, to as int, n as int, n as int - 1);
                }
            }
            n -= 1;
        }
        proof {
            self.lemma_valid(v0, fs@);
            if sound(v0, pos, to as int) {
                lemma_sound_less(v0, pos, to as int, from as int);
            }
        }
        inode.i_size = new_size;
        inode.i_blocks = inode.i_blocks - SECTORS_PER_BLOCK * (back as u32);
        Ok(())
    }

    /// Writes `buf` into the file from `offset` on, and returns the number
    /// of bytes written, which is all of them. A file that ends before
    /// `offset + buf.len()` grows to that size first. The access and the
    /// change are stamped. Fails with `NoSpace`, and changes nothing, where
    /// fewer blocks are free than the file lacks; on a sound block map
    /// nothing else fails.
    pub fn write_at<D: BlockDevice>(&self, fs: &mut Ext2FileSystem<D>, offset: usize, buf: &[u8]) -> (r: Result<
        usize,
        Ext2Error,
    >)
        requires
            old(fs).wf(),
            self.valid(old(fs)@),
            offset + buf@.len() <= u32::MAX,
        ensures
            final(fs).wf(),
            old(fs)@.same_geometry(final(fs)@),
            self.valid(final(fs)@),
            only_blocks_counted(old(fs)@, final(fs)@),
            only_file_changed(old(fs)@, final(fs)@, self.pos()),
            ({
                let before = self.inode(old(fs)@);
                let end = offset + buf@.len();
                let need = blocks_between(blocks_for(before.i_size as int), blocks_for(end));
                match r {
                    Ok(k) => {
                        &&& k == buf@.len()
                        &&& final(fs)@.super_block.s_free_blocks_count == old(fs)@.super_block.s_free_blocks_count
                            - if end > before.i_size {
                            need
                        } else {
                            0
                        }
                        &&& self.inode(final(fs)@) == (DiskInode {
                            i_size: if end > before.i_size {
                                end as u32
                            } else {
                                before.i_size
                            },
                            i_blocks: if end > before.i_size {
                                (before.i_blocks + SECTORS_PER_BLOCK * need) as u32
                            } else {
                                before.i_blocks
                            },
                            i_atime: old(fs)@.time,
                            i_mtime: old(fs)@.time,
                            ..before
                        })
                    },
                    Err(e) => {
                        &&& e == Ext2Error::NoSpace || e == Ext2Error::Corruption
                        &&& e == Ext2Error::NoSpace <==> end > before.i_size
                            && old(fs)@.super_block.s_free_blocks_count < need
                        &&& e == Ext2Error::NoSpace ==> final(fs)@ == old(fs)@
                    },
                }
            }),
            self.sound(old(fs)@) ==> {
                &&& r is Ok <==> self.can_grow(old(fs)@, offset + buf@.len())
                &&& r is Ok ==> self.wrote(old(fs)@, final(fs)@, offset as int, buf@)
            },
    {
        let ghost v0 = fs@;
        let ghost pos = self.pos();
        proof {
            self.lemma_valid(v0, v0);
            lemma_only_file_changed_refl(v0, pos);
        }
        let mut inode = self.read_disk_inode(fs);
        let ghost di0 = inode;
        let end = offset + buf.len();
        match self.increase_size(fs, end as u32, &mut inode) {
            Ok(_) => {},
            Err(e) => {
                proof {
                    lemma_map_is_file_changed(v0, fs@, pos);
                }
                return Err(e);
            },
        }
        let ghost v1 = fs@;
        inode.i_atime = fs.cur_time;
        inode.i_mtime = fs.cur_time;
        self.modify_disk_inode(fs, &inode);
        let ghost v2 = fs@;
        proof {
            self.lemma_valid(v0, v1);
            self.lemma_valid(v1, v2);
            lemma_map_is_file_changed(v0, v1, pos);
            lemma_inode_is_file_changed(v1, pos, inode);
            lemma_only_file_changed_trans(v0, v1, v2, pos);
            lemma_written_counted(
                v1,
                pos.block,
                pos.off,
                inode.store(v1.disk[pos.block].subrange(pos.off, pos.off + 128)),
            );
            lemma_counted_trans(v0, v1, v2);
            if self.sound(v0) {
                let nb0 = blocks_for(di0.i_size as int);
                let nb1 = blocks_for(inode.i_size as int);
                lemma_inode_written(v1, pos, nb1, pos.block, pos.off, inode);
                self.lemma_inode_stepped(v1, nb1, inode);
                lemma_stepped_trans(v0, v1, v2, pos, nb0, nb1, nb1);
            }
        }
        match fs.write_data(self.block_id, self.block_offset, inode.i_size as usize, offset, buf) {
            Ok(_) => {
                proof {
                    let v3 = fs@;
                    self.lemma_valid(v2, v3);
                    assert(v3.disk[self.block_id as int] == v2.disk[self.block_id as int]);
                    lemma_data_is_file_changed(v2, v3, pos);
                    lemma_only_file_changed_trans(v0, v2, v3, pos);
                    lemma_counted_trans(v0, v2, v3);
                    if self.sound(v0) {
                        let nb0 = blocks_for(di0.i_size as int);
                        let nb1 = blocks_for(inode.i_size as int);
                        lemma_stepped_trans(v0, v2, v3, pos, nb0, nb1, nb1);
                        self.lemma_wrote(v0, v1, v2, v3, offset as int, buf@);
                    }
                }
                Ok(buf.len())
            },
            Err(e) => {
                proof {
                    let v3 = fs@;
                    self.lemma_valid(v2, v3);
                    lemma_data_is_file_changed(v2, v3, pos);
                    lemma_only_file_changed_trans(v0, v2, v3, pos);
                    lemma_counted_trans(v0, v2, v3);
                }
                Err(e)
            },
        }
    }

    /// A sound file that has grown, whose inode was stored and into which
    /// `data` was written holds `data` where it was written and what it
    /// held elsewhere.
    pub proof fn lemma_wrote(&self, v0: FsView, v1: FsView, v2: FsView, v3: FsView, offset: int, data: Seq<u8>)
        requires
            self.sound(v0),
            self.valid(v3),
            only_blocks_counted(v0, v3),
            0 <= offset,
            ({
                let pos = self.pos();
                let size0 = self.inode(v0).i_size as int;
                let size1 = self.inode(v3).i_size as int;
                let nb0 = blocks_for(size0);
                let nb1 = blocks_for(size1);
                &&& size1 == if offset + data.len() > size0 {
                    offset + data.len()
                } else {
                    size0
                }
                &&& self.sound_for(v3, self.inode(v3))
                &&& same_bytes(v0, v1, pos, nb0)
                &&& same_bytes(v1, v2, pos, nb1)
                &&& stepped(v0, v3, pos, nb0, nb1)
                &&& forall|i: int|
                    0 <= i < nb1 * BLOCK_SIZE ==> #[trigger] byte_at(v3, pos, i) == if offset <= i < offset
                        + data.len() {
                        data[i - offset]
                    } else {
                        byte_at(v2, pos, i)
                    }
            }),
        ensures
            self.wrote(v0, v3, offset, data),
    {
        let pos = self.pos();
        let size0 = self.inode(v0).i_size as int;
        let end = offset + data.len();
        assert(self.bytes(v3).subrange(offset, end) =~= data);
        assert forall|i: int| 0 <= i < size0 && !(offset <= i < end) implies #[trigger] self.bytes(v3)[i]
            == self.bytes(v0)[i] by {
            assert(byte_at(v3, pos, i) == byte_at(v2, pos, i));
            assert(byte_at(v2, pos, i) == byte_at(v1, pos, i));
            assert(byte_at(v1, pos, i) == byte_at(v0, pos, i));
        }
    }

    /// Writes `buf` behind the end of the file, and returns the number of
    /// bytes written, which is all of them.
    pub fn append<D: BlockDevice>(&self, fs: &mut Ext2FileSystem<D>, buf: &[u8]) -> (r: Result<usize, Ext2Error>)
        requires
            old(fs).wf(),
            self.valid(old(fs)@),
            self.inode(old(fs)@).i_size + buf@.len() <= u32::MAX,
        ensures
            final(fs).wf(),
            old(fs)@.same_geometry(final(fs)@),
            self.valid(final(fs)@),
            only_blocks_counted(old(fs)@, final(fs)@),
            only_file_changed(old(fs)@, final(fs)@, self.pos()),
            ({
                let before = self.inode(old(fs)@);
                let end = before.i_size + buf@.len();
                let need = blocks_between(blocks_for(before.i_size as int), blocks_for(end));
                match r {
                    Ok(k) => {
                        &&& k == buf@.len()
                        &&& final(fs)@.super_block.s_free_blocks_count == old(fs)@.super_block.s_free_blocks_count
                            - need
                        &&& self.inode(final(fs)@) == (DiskInode {
                            i_size: end as u32,
                            i_blocks: if end > before.i_size {
                                (before.i_blocks + SECTORS_PER_BLOCK * need) as u32
                            } else {
                                before.i_blocks
                            },
                            i_atime: old(fs)@.time,
                            i_mtime: old(fs)@.time,
                            ..before
                        })
                    },
                    Err(e) => {
                        &&& e == Ext2Error::NoSpace || e == Ext2Error::Corruption
                        &&& e == Ext2Error::NoSpace <==> end > before.i_size
                            && old(fs)@.super_block.s_free_blocks_count < need
                        &&& e == Ext2Error::NoSpace ==> final(fs)@ == old(fs)@
                    },
                }
            }),
            self.sound(old(fs)@) ==> {
                &&& r is Ok <==> self.can_grow(old(fs)@, self.inode(old(fs)@).i_size + buf@.len())
                &&& r is Ok ==> self.sound(final(fs)@) && self.bytes(final(fs)@) == self.bytes(old(fs)@) + buf@
                    && self.kept_to_itself(old(fs)@, final(fs)@)
            },
    {
        let inode = self.read_disk_inode(fs);
        let r = self.write_at(fs, inode.i_size as usize, buf);
        proof {
            if self.sound(old(fs)@) && r is Ok {
                let size = inode.i_size as int;
                let a = self.bytes(fs@);
                assert(a.subrange(size, size + buf@.len()) == buf@);
                assert(a =~= self.bytes(old(fs)@) + buf@) by {
                    assert forall|i: int| 0 <= i < a.len() implies a[i] == (self.bytes(old(fs)@) + buf@)[i] by {
                        if i >= size {
                            assert(a.subrange(size, size + buf@.len())[i - size] == a[i]);
                        }
                    }
                }
            }
        }
        r
    }

    /// Sets the size of a regular file to `new_size`: a longer file loses
    /// the blocks behind the last that is needed, a shorter one gets every
    /// block it lacks. The change is stamped. Returns `false`, and changes
    /// nothing, where the file is not a regular one.
    pub fn ftruncate<D: BlockDevice>(&self, fs: &mut Ext2FileSystem<D>, new_size: u32) -> (r: Result<bool, Ext2Error>)
        requires
            old(fs).wf(),
            self.valid(old(fs)@),
        ensures
            final(fs).wf(),
            old(fs)@.same_geometry(final(fs)@),
            self.valid(final(fs)@),
            only_blocks_counted(old(fs)@, final(fs)@),
            only_file_changed(old(fs)@, final(fs)@, self.pos()),
            ({
                let before = self.inode(old(fs)@);
                let grow = blocks_between(blocks_for(before.i_size as int), blocks_for(new_size as int));
                let back = blocks_between(blocks_for(new_size as int), blocks_for(before.i_size as int));
                match r {
                    Ok(done) => {
                        &&& done == (self.kind(old(fs)@) == EXT2_FT_REG_FILE)
                        &&& !done ==> final(fs)@ == old(fs)@
                        &&& done ==> self.inode(final(fs)@) == (DiskInode {
                            i_size: new_size,
                            i_blocks: if new_size > before.i_size {
                                (before.i_blocks + SECTORS_PER_BLOCK * grow) as u32
                            } else if new_size < before.i_size {
                                (before.i_blocks - SECTORS_PER_BLOCK * back) as u32
                            } else {
                                before.i_blocks
                            },
                            i_ctime: old(fs)@.time,
                            ..before
                        })
                    },
                    Err(e) => {
                        &&& self.kind(old(fs)@) == EXT2_FT_REG_FILE
                        &&& e == Ext2Error::NoSpace || e == Ext2Error::Corruption
                        &&& e == Ext2Error::NoSpace <==> new_size > before.i_size
                            && old(fs)@.super_block.s_free_blocks_count < grow
                        &&& e == Ext2Error::NoSpace ==> final(fs)@ == old(fs)@
                    },
                }
            }),
            self.sound(old(fs)@) && self.kind(old(fs)@) == EXT2_FT_REG_FILE ==> {
                &&& r is Ok <==> self.can_grow(old(fs)@, new_size as int)
                &&& r is Ok ==> self.resized(old(fs)@, final(fs)@, new_size as int)
            },
    {
        let ghost v0 = fs@;
        let ghost pos = self.pos();
        proof {
            self.lemma_valid(v0, v0);
            lemma_only_file_changed_refl(v0, pos);
            lemma_counted_refl(v0);
        }
        if self.file_type(fs) != EXT2_FT_REG_FILE {
            return Ok(false);
        }
        let mut inode = self.read_disk_inode(fs);
        if inode.i_size > new_size {
            match self.decrease_size(fs, new_size, &mut inode) {
                Ok(_) => {},
                Err(e) => {
                    proof {
                        lemma_map_is_file_changed(v0, fs@, pos);
                    }
                    return Err(e);
                },
            }
        } else {
            match self.increase_size(fs, new_size, &mut inode) {
                Ok(_) => {},
                Err(e) => {
                    proof {
                        lemma_map_is_file_changed(v0, fs@, pos);
                    }
                    return Err(e);
                },
            }
        }
        let ghost v1 = fs@;
        inode.i_ctime = fs.cur_time;
        self.modify_disk_inode(fs, &inode);
        proof {
            let v2 = fs@;
            self.lemma_valid(v0, v1);
            lemma_map_is_file_changed(v0, v1, pos);
            lemma_inode_is_file_changed(v1, pos, inode);
            lemma_only_file_changed_trans(v0, v1, v2, pos);
            lemma_written_counted(
                v1,
                pos.block,
                pos.off,
                inode.store(v1.disk[pos.block].subrange(pos.off, pos.off + 128)),
            );
            lemma_counted_trans(v0, v1, v2);
            if self.sound(v0) {
                let nb1 = blocks_for(inode.i_size as int);
                lemma_inode_written(v1, pos, nb1, pos.block, pos.off, inode);
                self.lemma_inode_stepped(v1, nb1, inode);
                lemma_stepped_trans(v0, v1, v2, pos, blocks_for(self.inode(v0).i_size as int), nb1, nb1);
                let size0 = self.inode(v0).i_size as int;
                let keep = if new_size < size0 {
                    blocks_for(new_size as int)
                } else {
                    blocks_for(size0)
                };
                lemma_same_less(v1, v2, pos, nb1, keep);
                assert forall|i: int| 0 <= i < size0 && i < new_size implies #[trigger] self.bytes(v2)[i]
                    == self.bytes(v0)[i] by {
                    assert(byte_at(v2, pos, i) == byte_at(v1, pos, i));
                    assert(byte_at(v1, pos, i) == byte_at(v0, pos, i));
                }
            }
        }
        Ok(true)
    }

    /// Empties the file: gives back all its blocks, sets its size to zero
    /// and stamps the access and the change. On a sound block map nothing
    /// fails.
    pub fn clear<D: BlockDevice>(&self, fs: &mut Ext2FileSystem<D>) -> (r: Result<(), Ext2Error>)
        requires
            old(fs).wf(),
            self.valid(old(fs)@),
        ensures
            final(fs).wf(),
            old(fs)@.same_geometry(final(fs)@),
            self.valid(final(fs)@),
            only_blocks_counted(old(fs)@, final(fs)@),
            only_file_changed(old(fs)@, final(fs)@, self.pos()),
            ({
                let before = self.inode(old(fs)@);
                let back = blocks_between(0, blocks_for(before.i_size as int));
                match r {
                    Ok(_) => {
                        &&& self.inode(final(fs)@) == (DiskInode {
                            i_size: 0,
                            i_blocks: (before.i_blocks - SECTORS_PER_BLOCK * back) as u32,
                            i_atime: old(fs)@.time,
                            i_mtime: old(fs)@.time,
                            ..before
                        })
                        &&& final(fs)@.super_block.s_free_blocks_count == old(fs)@.super_block.s_free_blocks_count
                            + back
                    },
                    Err(e) => e == Ext2Error::Corruption,
                }
            }),
            self.sound(old(fs)@) ==> r is Ok && self.sound(final(fs)@) && self.inode(final(fs)@).i_blocks == 0
                && self.kept_to_itself(old(fs)@, final(fs)@),
    {
        let ghost v0 = fs@;
        let ghost pos = self.pos();
        proof {
            self.lemma_valid(v0, v0);
        }
        let mut inode = self.read_disk_inode(fs);
        match self.decrease_size(fs, 0, &mut inode) {
            Ok(_) => {},
            Err(e) => {
                proof {
                    lemma_map_is_file_changed(v0, fs@, pos);
                }
                return Err(e);
            },
        }
        inode.i_atime = fs.cur_time;
        inode.i_mtime = fs.cur_time;
        let ghost v1 = fs@;
        self.modify_disk_inode(fs, &inode);
        proof {
            let v2 = fs@;
            reveal_with_fuel(blocks_between, 1);
            self.lemma_valid(v0, v1);
            lemma_map_is_file_changed(v0, v1, pos);
            lemma_inode_is_file_changed(v1, pos, inode);
            lemma_only_file_changed_trans(v0, v1, v2, pos);
            lemma_written_counted(
                v1,
                pos.block,
                pos.off,
                inode.store(v1.disk[pos.block].subrange(pos.off, pos.off + 128)),
            );
            lemma_counted_trans(v0, v1, v2);
            if self.sound(v0) {
                let nb1 = blocks_for(inode.i_size as int);
                lemma_inode_written(v1, pos, nb1, pos.block, pos.off, inode);
                self.lemma_inode_stepped(v1, nb1, inode);
                lemma_stepped_trans(v0, v1, v2, pos, blocks_for(self.inode(v0).i_size as int), nb1, nb1);
            }
        }
        Ok(())
    }

    /// Storing the inode of a sound file keeps the file to its own.
    pub proof fn lemma_inode_stepped(&self, v: FsView, nb: int, inode: DiskInode)
        requires
            v.wf(),
            self.valid(v),
            sound(v, self.pos(), nb),
        ensures
            stepped(v, v.inode_written(self.block_id as int, self.block_offset as int, inode), self.pos(), nb, nb),
    {
        let pos = self.pos();
        let w = v.inode_written(pos.block, pos.off, inode);
        self.lemma_valid(v, v);
        crate::sound::lemma_sound_place(v, pos, nb);
        lemma_inode_written(v, pos, nb, pos.block, pos.off, inode);
        v.lemma_written_marks(
            pos.block,
            pos.off,
            inode.store(v.disk[pos.block].subrange(pos.off, pos.off + 128)),
        );
        lemma_meta_stepped(v, w, pos, nb);
    }
}

/// What was written into a sound file is what is read from it: where
/// `write_at` has written the bytes `data`, of which there is at least one,
/// from byte `offset` on, a `read_at` that follows and asks for as many
/// bytes from the same place is given `data`.
pub proof fn lemma_read_after_write(
    file: Inode,
    v0: FsView,
    v1: FsView,
    v2: FsView,
    offset: int,
    data: Seq<u8>,
    out: Seq<u8>,
)
    requires
        file.sound(v0),
        0 <= offset,
        data.len() > 0,
        file.wrote(v0, v1, offset, data),
        file.was_read(v1, v2, offset, data.len() as int, out),
    ensures
        out == data,
        file.sound(v2),
{
    let end = offset + data.len();
    assert(file.bytes(v1).subrange(offset, end) == data);
    assert(out =~= file.bytes(v1).subrange(offset, end));
}

/// Cutting a sound file down, or drawing it out, to `n` bytes and reading
/// `n` bytes from its start gives `n` bytes, of which those that the file
/// had before are as they were; and the file then counts eight sectors
/// for each of the blocks, data and indirect, that a file of `n` bytes
/// has.
pub proof fn lemma_read_after_truncate(file: Inode, v0: FsView, v1: FsView, v2: FsView, n: int, out: Seq<u8>)
    requires
        file.sound(v0),
        0 <= n,
        file.resized(v0, v1, n),
        file.was_read(v1, v2, 0, n, out),
    ensures
        out.len() == n,
        forall|i: int| 0 <= i < n && i < file.inode(v0).i_size ==> out[i] == file.bytes(v0)[i],
        file.inode(v1).i_blocks == SECTORS_PER_BLOCK * blocks_between(0, blocks_for(n)),
        file.inode(v2).i_size == n,
{
    assert forall|i: int| 0 <= i < n && i < file.inode(v0).i_size implies out[i] == file.bytes(v0)[i] by {
        assert(file.bytes(v1)[i] == file.bytes(v0)[i]);
    }
}

/// A directory that holds nothing but the entries `.`, for the inode `own`,
/// and `..`, for the inode `above`, finds the one under `.` and the other
/// under `..`.
pub proof fn lemma_dot_lookup(own: u32, above: u32)
    ensures
        ({
            let content = entry_bytes(own, dot(), EXT2_FT_DIR) + entry_bytes(above, dot_dot(), EXT2_FT_DIR);
            &&& tiled(content)
            &&& lookup(content, dot()) matches Lookup::Found { head, .. } && head.inode == own && head.file_type
                == EXT2_FT_DIR
            &&& lookup(content, dot_dot()) matches Lookup::Found { head, .. } && head.inode == above
                && head.file_type == EXT2_FT_DIR
            &&& names(content) == Some(seq![dot(), dot_dot()])
        }),
{
    let none = Seq::<u8>::empty();
    let first = entry_bytes(own, dot(), EXT2_FT_DIR);
    let second = entry_bytes(above, dot_dot(), EXT2_FT_DIR);
    assert(stored_name(dot()) =~= dot());
    assert(stored_name(dot_dot()) =~= dot_dot());
    assert(dot() != dot_dot()) by {
        assert(dot().len() == 1);
        assert(dot_dot().len() == 2);
    }
    assert(tiled(none));
    assert(crate::dir::names_from(none, 0) == Some(Seq::<Seq<u8>>::empty()));
    lemma_appended(none, own, dot(), EXT2_FT_DIR, 0, dot(), 0, 0);
    lemma_appended(none, own, dot(), EXT2_FT_DIR, 0, dot_dot(), 0, 0);
    assert(none + first =~= first);
    lemma_appended(first, above, dot_dot(), EXT2_FT_DIR, 0, dot(), 0, 0);
    lemma_appended(first, above, dot_dot(), EXT2_FT_DIR, 0, dot_dot(), 0, 0);
    assert(Seq::<Seq<u8>>::empty().push(dot()).push(dot_dot()) =~= seq![dot(), dot_dot()]);
}

/// A new directory knows itself and its parent: after `create` has made
/// the directory `child` in the sound directory `parent`, looking for `.`
/// in the child finds an entry for the child, looking for `..` finds one
/// for the parent, the child counts two links, and the parent one more
/// than before.
pub proof fn lemma_new_directory(
    parent: Inode,
    child: Inode,
    v: FsView,
    w: FsView,
    name: Seq<u8>,
    file_type: u16,
)
    requires
        parent.dir_sound(v),
        file_type & EXT2_S_IFMT == EXT2_S_IFDIR,
        parent.created(v, w, name, file_type, child),
    ensures
        child.found(w, dot()) matches Ok(Some(f)) && f.head.inode == child.inode_id,
        child.found(w, dot_dot()) matches Ok(Some(f)) && f.head.inode == parent.inode_id,
        child.listed(w) == Ok::<Seq<Seq<u8>>, Ext2Error>(seq![dot(), dot_dot()]),
        child.inode(w).i_links_count == 2,
        parent.inode(w).i_links_count == parent.inode(v).i_links_count + 1,
        child.dir_sound(w),
{
    child.lemma_content(w);
    lemma_dot_lookup(child.inode_id as u32, parent.inode_id as u32);
    let m = file_type;
    assert(m & 0xF000u16 == 0x4000u16 ==> (0x1FFu16 | (m & 0xF000u16)) & 0xF000u16 == 0x4000u16) by (bit_vector);
}

/// What is made in a directory and taken out of it again leaves the counts
/// as if it had never been made. After `create` has made the file or the
/// directory `child` under `name` in the sound directory `dir`, its entry
/// can be taken out again as that of a file or of an empty directory; and
/// once `unlink` has done so, the inode of the child is free, as many
/// inodes are free as before, the directory has the names and the link
/// count that it had, and of the blocks only those are still taken that the
/// directory took to hold the entry. This is stated of a directory that
/// counts a link, for a name of at most 255 bytes, where the entry before
/// the new one can reach over it.
pub proof fn lemma_made_and_removed(
    dir: Inode,
    child: Inode,
    v0: FsView,
    v1: FsView,
    v2: FsView,
    name: Seq<u8>,
    file_type: u16,
)
    requires
        dir.dir_sound(v0),
        dir.inode(v0).i_links_count >= 1,
        name.len() <= 255,
        dir.create_outcome(v0, name, file_type) is None,
        dir.created(v0, v1, name, file_type, child),
        dir.can_unlink(v1, name),
        if file_type & EXT2_S_IFMT == EXT2_S_IFDIR {
            dir.dir_removed(v1, v2, name)
        } else {
            dir.unlinked(v1, v2, name)
        },
    ensures
        file_type & EXT2_S_IFMT == EXT2_S_IFDIR ==> dir.can_remove_dir(v1, name),
        !v2.inode_used(child.inode_id as int),
        v2.super_block.s_free_inodes_count == v0.super_block.s_free_inodes_count,
        v2.super_block.s_free_blocks_count == v0.super_block.s_free_blocks_count - blocks_between(
            blocks_for(dir.inode(v0).i_size as int),
            blocks_for(dir.inode(v0).i_size + entry_bytes(child.inode_id as u32, name, file_code_of(file_type)).len()),
        ),
        names(dir.bytes(v2)) == names(dir.bytes(v0)),
        dir.inode(v2).i_links_count == dir.inode(v0).i_links_count,
{
    let is_dir = file_type & EXT2_S_IFMT == EXT2_S_IFDIR;
    let code = file_code_of(file_type);
    let id = child.inode_id as u32;
    let before = dir.bytes(v0);
    assert(stored_name(name) =~= name);
    lemma_appended(before, id, name, code, 0, name, 0, 0);
    lemma_skip_last(before, id, name, code, 0);
    lemma_entry_bytes(id, name, code);
    let found = lookup(dir.bytes(v1), name);
    let target = Inode::target_of(v1, found->head);
    assert(found->head == DirEntryHead::for_name(id, name.len(), code));
    assert(found->head.inode == id);
    assert(target.inode_id == child.inode_id);
    assert(target.pos() == child.pos());
    assert(target.block_id == child.block_id && target.block_offset == child.block_offset);
    assert(target.inode(v1) == child.inode(v1));
    assert(target.bytes(v1) == child.bytes(v1));
    assert(child.bytes(v1).len() == child.inode(v1).i_size);
    if is_dir {
        lemma_new_directory(dir, child, v0, v1, name, file_type);
        lemma_dot_lookup(id, dir.inode_id as u32);
        lemma_entry_bytes(id, dot(), EXT2_FT_DIR);
        lemma_entry_bytes(dir.inode_id as u32, dot_dot(), EXT2_FT_DIR);
        assert(stored_name(dot()) =~= dot());
        assert(stored_name(dot_dot()) =~= dot_dot());
        assert(target == child);
        let up = child.parent_of(v1);
        assert(up.inode_id == dir.inode_id);
        assert(up.pos() == dir.pos());
        assert(up.block_id == dir.block_id && up.block_offset == dir.block_offset);
        assert(up.sound(v1));
        lemma_apart_sym(
            v1,
            dir.pos(),
            blocks_for(dir.inode(v1).i_size as int),
            child.pos(),
            blocks_for(child.inode(v1).i_size as int),
        );
        assert(child.is_empty_dir(v1));
        assert(child.inode(v1).i_size == 19);
    } else {
        assert(child.inode(v1).i_size == 0);
        assert(blocks_between(0, blocks_for(0)) == 0);
    }
}

/// What was just made in a directory can be taken out of it again: after
/// `create` has made `child` under `name` in the sound directory `dir`,
/// the entry can be taken out with `unlink`, where the directory had an
/// entry before and has at most 65535 bytes now, and the name has at most
/// 255 bytes and is not `.` or `..`.
pub proof fn lemma_created_can_unlink(
    dir: Inode,
    child: Inode,
    v: FsView,
    w: FsView,
    name: Seq<u8>,
    file_type: u16,
)
    requires
        dir.dir_sound(v),
        dir.bytes(v).len() > 0,
        dir.bytes(w).len() <= u16::MAX,
        name.len() <= 255,
        name != dot(),
        name != dot_dot(),
        dir.create_outcome(v, name, file_type) is None,
        dir.created(v, w, name, file_type, child),
    ensures
        dir.can_unlink(w, name),
        Inode::target_of(w, lookup(dir.bytes(w), name)->head).inode_id == child.inode_id,
{
    let code = file_code_of(file_type);
    let id = child.inode_id as u32;
    let before = dir.bytes(v);
    let after = dir.bytes(w);
    assert(stored_name(name) =~= name);
    lemma_appended(before, id, name, code, 0, name, 0, 0);
    lemma_entry_bytes(id, name, code);
    let found = lookup(after, name);
    let target = Inode::target_of(w, found->head);
    assert(found->head == DirEntryHead::for_name(id, name.len(), code));
    lemma_found_behind(after, name, 0, 0, 0);
    lemma_found_reach(after, name, 0, 0, 0);
    assert(found->offset == before.len());
    assert(target.inode_id == child.inode_id);
    assert(target.pos() == child.pos());
    assert(target.inode(w) == child.inode(w));
    assert(target.sound(w));
    assert(dir.apart_from(target, w));
}

/// A name that is taken out of a directory is no longer found there: where
/// the entries of the sound directory `dir` had a name each, and `w` is the
/// file system after `unlink` has taken the entry `name` out, with a file,
/// an empty directory or a whole tree behind it, looking for `name` in the
/// directory finds nothing.
pub proof fn lemma_name_not_found(dir: Inode, v: FsView, w: FsView, name: Seq<u8>)
    requires
        dir.can_unlink(v, name),
        names(dir.bytes(v)) is Some,
        names(dir.bytes(v)).unwrap().no_duplicates(),
        dir.dir_sound(w),
        names(dir.bytes(w)) == Some(names_skip(dir.bytes(v), 0, lookup(dir.bytes(v), name)->offset)),
    ensures
        lookup(dir.bytes(w), name) is Missing,
        dir.found(w, name) == Ok::<Option<FoundEntry>, Ext2Error>(None),
{
    dir.lemma_content(w);
    crate::dir::lemma_name_gone(dir.bytes(v), dir.bytes(w), name);
}

/// Between `v` and `w` nothing changed but blocks for data, bitmaps, and the
/// inode stored at `pos`.
pub open spec fn only_file_changed(v: FsView, w: FsView, pos: InodePos) -> bool {
    &&& forall|b: int|
        0 <= b < v.disk.len() && !v.is_data(b) && !v.is_bitmap(b) && b != pos.block ==> #[trigger] w.disk[b]
            == v.disk[b]
    &&& forall|j: int|
        0 <= j < BLOCK_SIZE && !(pos.off <= j < pos.off + 128) ==> #[trigger] w.disk[pos.block][j]
            == v.disk[pos.block][j]
}

/// Nothing has changed where nothing was done.
pub proof fn lemma_only_file_changed_refl(v: FsView, pos: InodePos)
    ensures
        only_file_changed(v, v, pos),
{
}

/// What changed only one file, twice, changed only that file.
pub proof fn lemma_only_file_changed_trans(u: FsView, v: FsView, w: FsView, pos: InodePos)
    requires
        u.wf(),
        u.same_geometry(v),
        only_file_changed(u, v, pos),
        only_file_changed(v, w, pos),
    ensures
        only_file_changed(u, w, pos),
{
    u.lemma_same_geometry(v);
    assert forall|b: int|
        0 <= b < u.disk.len() && !u.is_data(b) && !u.is_bitmap(b) && b != pos.block implies #[trigger] w.disk[b]
        == u.disk[b] by {
        assert(v.disk[b] == u.disk[b]);
    }
    assert forall|j: int| 0 <= j < BLOCK_SIZE && !(pos.off <= j < pos.off + 128) implies #[trigger] w.disk[pos.block][j]
        == u.disk[pos.block][j] by {
        assert(v.disk[pos.block][j] == u.disk[pos.block][j]);
    }
}

/// A change of the block map of a file is a change of the file.
pub proof fn lemma_map_is_file_changed(v: FsView, w: FsView, pos: InodePos)
    requires
        only_map_changed(v, w, pos),
    ensures
        only_file_changed(v, w, pos),
{
}

/// A change of data blocks is a change of the file.
pub proof fn lemma_data_is_file_changed(v: FsView, w: FsView, pos: InodePos)
    requires
        only_data_changed(v, w),
        sound_place(v, pos),
    ensures
        only_file_changed(v, w, pos),
{
}

/// What changes only a file leaves the first block of the disk as it is,
/// and with it the boot sector.
pub proof fn lemma_boot_kept(v: FsView, w: FsView, pos: InodePos)
    requires
        v.wf(),
        only_file_changed(v, w, pos),
        pos.block != 0,
    ensures
        w.disk[0] == v.disk[0],
        w.boot() == v.boot(),
{
    v.lemma_low_blocks(0);
}

/// Storing the inode of a file is a change of the file.
pub proof fn lemma_inode_is_file_changed(v: FsView, pos: InodePos, inode: DiskInode)
    requires
        v.wf(),
        sound_place(v, pos),
    ensures
        only_file_changed(v, v.inode_written(pos.block, pos.off, inode), pos),
{
    v.lemma_blocks();
    let region = v.disk[pos.block].subrange(pos.off, pos.off + 128);
    inode.lemma_store_parse(region);
}

/// The text that std's lossy decoding of UTF-8 gives for `bytes`.
pub uninterp spec fn utf8_lossy(bytes: Seq<u8>) -> Seq<char>;

/// The name `bytes` as text. This is std's `String::from_utf8_lossy`: of its
/// result the contract says that it depends on the bytes alone, and that it
/// is the text that the bytes encode where they are valid UTF-8.
#[verifier::external_body]
fn name_to_string(bytes: &[u8]) -> (text: String)
    ensures
        text@ == utf8_lossy(bytes@),
        valid_utf8(bytes@) ==> text@ == decode_utf8(bytes@),
{
    String::from_utf8_lossy(bytes).into_owned()
}

/// The names `names` as texts, in order.
pub open spec fn texts(names: Seq<Seq<u8>>) -> Seq<Seq<char>> {
    Seq::new(names.len(), |i: int| utf8_lossy(names[i]))
}

/// The texts that the strings hold.
pub open spec fn string_views(v: Seq<String>) -> Seq<Seq<char>> {
    Seq::new(v.len(), |i: int| v[i]@)
}

/// The name `.`.
pub open spec fn dot() -> Seq<u8> {
    seq![46u8]
}

/// The name `..`.
pub open spec fn dot_dot() -> Seq<u8> {
    seq![46u8, 46u8]
}

/// Whether `name` is `.` or `..`.
pub fn is_dot_name(name: &[u8]) -> (b: bool)
    ensures
        b == (name@ == dot() || name@ == dot_dot()),
{
    if name.len() == 1 {
        assert(name[0] == 46u8 ==> name@ =~= dot());
        name[0] == 46u8
    } else if name.len() == 2 {
        assert(name[0] == 46u8 && name[1] == 46u8 ==> name@ =~= dot_dot());
        name[0] == 46u8 && name[1] == 46u8
    } else {
        false
    }
}

impl Inode {
    /// The whole content of the file. Fails with `Corruption` where a block
    /// of the file cannot be found.
    pub fn read_all<D: BlockDevice>(&self, fs: &mut Ext2FileSystem<D>) -> (r: Result<Vec<u8>, Ext2Error>)
        requires
            old(fs).wf(),
            self.valid(old(fs)@),
        ensures
            final(fs).wf(),
            final(fs)@ == old(fs)@,
            r is Ok <==> self.mapped(old(fs)@),
            match r {
                Ok(bytes) => bytes@ == self.content(old(fs)@),
                Err(e) => e == Ext2Error::Corruption,
            },
    {
        proof {
            self.lemma_valid(fs@, fs@);
        }
        let inode = self.read_disk_inode(fs);
        let size = inode.i_size as usize;
        let mut buf = zeroed(size);
        match fs.read_data(self.block_id, self.block_offset, size, 0, &mut buf) {
            Ok(n) => {
                assert(buf@.subrange(0, size as int) =~= buf@);
                Ok(buf)
            },
            Err(e) => Err(e),
        }
    }

    /// Looks for the entry `name` in this directory. Fails with
    /// `NotADirectory` where the inode is none, and with `Corruption` where
    /// the content cannot be read or an entry before any with the name is
    /// broken.
    pub fn find_inode_id<D: BlockDevice>(&self, fs: &mut Ext2FileSystem<D>, name: &[u8]) -> (r: Result<
        Option<FoundEntry>,
        Ext2Error,
    >)
        requires
            old(fs).wf(),
            self.valid(old(fs)@),
        ensures
            final(fs).wf(),
            final(fs)@ == old(fs)@,
            r == self.found(old(fs)@, name@),
    {
        let inode = self.read_disk_inode(fs);
        if !inode.is_dir() {
            return Err(Ext2Error::NotADirectory);
        }
        match self.read_all(fs) {
            Ok(content) => find_entry(content.as_slice(), name),
            Err(e) => Err(e),
        }
    }

    /// What looking for `name` in this directory gives in `v`.
    pub open spec fn found(&self, v: FsView, name: Seq<u8>) -> Result<Option<FoundEntry>, Ext2Error> {
        if !self.inode(v).spec_is_dir() {
            Err(Ext2Error::NotADirectory)
        } else if !self.mapped(v) {
            Err(Ext2Error::Corruption)
        } else {
            match lookup(self.content(v), name) {
                Lookup::Found { head, pos, offset, prev_offset } => Ok(
                    Some(
                        FoundEntry {
                            head,
                            pos: pos as usize,
                            offset: offset as usize,
                            prev_offset: prev_offset as usize,
                        },
                    ),
                ),
                Lookup::Missing => Ok(None),
                Lookup::Broken => Err(Ext2Error::Corruption),
            }
        }
    }

    /// Looks for the entry `name` in this directory: its head, its number
    /// among the entries, and where the entry before it starts.
    pub fn get_inode_id<D: BlockDevice>(&self, fs: &mut Ext2FileSystem<D>, name: &str) -> (r: Result<
        Option<(DirEntryHead, usize, usize)>,
        Ext2Error,
    >)
        requires
            old(fs).wf(),
            self.valid(old(fs)@),
        ensures
            final(fs).wf(),
            final(fs)@ == old(fs)@,
            match self.found(old(fs)@, name.spec_bytes()) {
                Ok(Some(f)) => r == Ok::<Option<(DirEntryHead, usize, usize)>, Ext2Error>(
                    Some((f.head, f.pos, f.prev_offset)),
                ),
                Ok(None) => r == Ok::<Option<(DirEntryHead, usize, usize)>, Ext2Error>(None),
                Err(e) => r == Err::<Option<(DirEntryHead, usize, usize)>, Ext2Error>(e),
            },
    {
        match self.find_inode_id(fs, name.as_bytes()) {
            Ok(Some(f)) => Ok(Some((f.head, f.pos, f.prev_offset))),
            Ok(None) => Ok(None),
            Err(e) => Err(e),
        }
    }

    /// The handle that the entry `f` of a directory leads to; `Corruption`
    /// where the entry names no inode of the file system.
    pub fn follow<D: BlockDevice>(fs: &mut Ext2FileSystem<D>, f: &FoundEntry) -> (r: Result<Inode, Ext2Error>)
        requires
            old(fs).wf(),
        ensures
            final(fs).wf(),
            final(fs)@ == old(fs)@,
            r is Ok <==> 1 <= f.head.inode <= old(fs)@.super_block.s_inodes_count,
            match r {
                Ok(inode) => {
                    &&& inode.valid(old(fs)@)
                    &&& inode.inode_id == f.head.inode
                    &&& inode.file_type == if f.head.file_type == EXT2_FT_UNKNOWN {
                        inode.inode(old(fs)@).spec_file_code()
                    } else {
                        f.head.file_type
                    }
                },
                Err(e) => e == Ext2Error::Corruption,
            },
    {
        let id = f.head.inode;
        if id == 0 || id > fs.super_block.s_inodes_count {
            return Err(Ext2Error::Corruption);
        }
        let (block_id, block_offset) = fs.get_disk_inode_pos(id);
        let mut inode = Inode {
            inode_id: id as usize,
            block_id: block_id as usize,
            block_offset,
            file_type: f.head.file_type,
        };
        inode.read_file_type(fs);
        Ok(inode)
    }

    /// The file or directory that this directory knows as `name`. Fails
    /// with `NotFound` where no entry has the name.
    pub fn find<D: BlockDevice>(&self, fs: &mut Ext2FileSystem<D>, name: &str) -> (r: Result<Inode, Ext2Error>)
        requires
            old(fs).wf(),
            self.valid(old(fs)@),
        ensures
            final(fs).wf(),
            final(fs)@ == old(fs)@,
            match self.found(old(fs)@, name.spec_bytes()) {
                Ok(Some(f)) => {
                    &&& r is Ok <==> 1 <= f.head.inode <= old(fs)@.super_block.s_inodes_count
                    &&& match r {
                        Ok(inode) => {
                            &&& inode.valid(old(fs)@)
                            &&& inode.inode_id == f.head.inode
                            &&& inode.file_type == if f.head.file_type == EXT2_FT_UNKNOWN {
                                inode.inode(old(fs)@).spec_file_code()
                            } else {
                                f.head.file_type
                            }
                        },
                        Err(e) => e == Ext2Error::Corruption,
                    }
                },
                Ok(None) => r matches Err(e) && e == Ext2Error::NotFound,
                Err(e) => r matches Err(e2) && e2 == e,
            },
    {
        self.find_bytes(fs, name.as_bytes())
    }

    /// As `find`, for a name given as bytes.
    pub fn find_bytes<D: BlockDevice>(&self, fs: &mut Ext2FileSystem<D>, name: &[u8]) -> (r: Result<Inode, Ext2Error>)
        requires
            old(fs).wf(),
            self.valid(old(fs)@),
        ensures
            final(fs).wf(),
            final(fs)@ == old(fs)@,
            match self.found(old(fs)@, name@) {
                Ok(Some(f)) => {
                    &&& r is Ok <==> 1 <= f.head.inode <= old(fs)@.super_block.s_inodes_count
                    &&& match r {
                        Ok(inode) => {
                            &&& inode.valid(old(fs)@)
                            &&& inode.inode_id == f.head.inode
                            &&& inode.file_type == if f.head.file_type == EXT2_FT_UNKNOWN {
                                inode.inode(old(fs)@).spec_file_code()
                            } else {
                                f.head.file_type
                            }
                        },
                        Err(e) => e == Ext2Error::Corruption,
                    }
                },
                Ok(None) => r matches Err(e) && e == Ext2Error::NotFound,
                Err(e) => r matches Err(e2) && e2 == e,
            },
    {
        match self.find_inode_id(fs, name) {
            Ok(Some(f)) => Inode::follow(fs, &f),
            Ok(None) => Err(Ext2Error::NotFound),
            Err(e) => Err(e),
        }
    }

    /// The names of the entries of this directory, as bytes and in order.
    pub fn ls_disk<D: BlockDevice>(&self, fs: &mut Ext2FileSystem<D>) -> (r: Result<Vec<Vec<u8>>, Ext2Error>)
        requires
            old(fs).wf(),
            self.valid(old(fs)@),
        ensures
            final(fs).wf(),
            final(fs)@ == old(fs)@,
            match self.listed(old(fs)@) {
                Ok(all) => r matches Ok(found) && views(found@) == all,
                Err(e) => r matches Err(e2) && e2 == e,
            },
    {
        let inode = self.read_disk_inode(fs);
        if !inode.is_dir() {
            return Err(Ext2Error::NotADirectory);
        }
        match self.read_all(fs) {
            Ok(content) => list_names(content.as_slice()),
            Err(e) => Err(e),
        }
    }

    /// The names of the entries of this directory in `v`.
    pub open spec fn listed(&self, v: FsView) -> Result<Seq<Seq<u8>>, Ext2Error> {
        if !self.inode(v).spec_is_dir() {
            Err(Ext2Error::NotADirectory)
        } else if !self.mapped(v) {
            Err(Ext2Error::Corruption)
        } else {
            match names(self.content(v)) {
                Some(all) => Ok(all),
                None => Err(Ext2Error::Corruption),
            }
        }
    }

    /// The names of the entries of this directory, as texts and in order.
    pub fn ls<D: BlockDevice>(&self, fs: &mut Ext2FileSystem<D>) -> (r: Result<Vec<String>, Ext2Error>)
        requires
            old(fs).wf(),
            self.valid(old(fs)@),
        ensures
            final(fs).wf(),
            final(fs)@ == old(fs)@,
            match self.listed(old(fs)@) {
                Ok(all) => r matches Ok(found) && string_views(found@) == texts(all),
                Err(e) => r matches Err(e2) && e2 == e,
            },
    {
        match self.ls_disk(fs) {
            Ok(raw) => {
                let mut found: Vec<String> = Vec::new();
                let mut i: usize = 0;
                while i < raw.len()
                    invariant
                        i <= raw@.len(),
                        found@.len() == i,
                        forall|j: int| 0 <= j < i ==> (#[trigger] found@[j])@ == utf8_lossy(raw@[j]@),
                    decreases raw@.len() - i,
                {
                    found.push(name_to_string(raw[i].as_slice()));
                    i += 1;
                }
                assert(string_views(found@) =~= texts(views(raw@)));
                Ok(found)
            },
            Err(e) => Err(e),
        }
    }

    /// Appends an entry that gives the inode `inode_id` the name `name`.
    /// Fails with `NoSpace`, and changes nothing, where the directory
    /// cannot take the entry; on a sound directory nothing else fails.
    pub fn append_dir_entry<D: BlockDevice>(
        &self,
        fs: &mut Ext2FileSystem<D>,
        inode_id: usize,
        name: &[u8],
        file_type: u8,
    ) -> (r: Result<(), Ext2Error>)
        requires
            old(fs).wf(),
            self.valid(old(fs)@),
            inode_id <= u32::MAX,
        ensures
            final(fs).wf(),
            old(fs)@.same_geometry(final(fs)@),
            self.valid(final(fs)@),
            only_blocks_counted(old(fs)@, final(fs)@),
            only_file_changed(old(fs)@, final(fs)@, self.pos()),
            r matches Err(e) ==> e == Ext2Error::NoSpace || e == Ext2Error::Corruption,
            r matches Err(e) && e == Ext2Error::NoSpace ==> final(fs)@ == old(fs)@,
            r is Ok ==> self.inode(final(fs)@).i_mode == self.inode(old(fs)@).i_mode && self.inode(
                final(fs)@,
            ).i_links_count == self.inode(old(fs)@).i_links_count,
            self.sound(old(fs)@) ==> {
                &&& r is Ok <==> self.has_room(old(fs)@, name@.len() as int, 0)
                &&& r is Ok ==> self.took_entry(old(fs)@, final(fs)@, entry_bytes(inode_id as u32, name@, file_type))
                &&& (r matches Err(e) ==> e == Ext2Error::NoSpace)
            },
    {
        let entry = make_entry(inode_id as u32, name, file_type);
        let inode = self.read_disk_inode(fs);
        proof {
            lemma_counted_refl(fs@);
            lemma_only_file_changed_refl(fs@, self.pos());
            lemma_entry_bytes(inode_id as u32, name@, file_type);
        }
        if inode.i_size > u32::MAX - 263 {
            return Err(Ext2Error::NoSpace);
        }
        match self.append(fs, entry.as_slice()) {
            Ok(_) => Ok(()),
            Err(e) => Err(e),
        }
    }

    /// `w` is `v` after the bytes `entry` were appended to the sound
    /// directory: it is sound, holds what it held and `entry` behind it,
    /// and has kept to itself; of its inode only the size, the count of
    /// sectors and the stamps of access and change have changed.
    pub open spec fn took_entry(&self, v: FsView, w: FsView, entry: Seq<u8>) -> bool {
        let before = self.inode(v);
        let end = before.i_size + entry.len();
        &&& self.sound(w)
        &&& self.bytes(w) == self.bytes(v) + entry
        &&& self.kept_to_itself(v, w)
        &&& w.super_block.s_free_blocks_count == v.super_block.s_free_blocks_count - blocks_between(
            blocks_for(before.i_size as int),
            blocks_for(end),
        )
        &&& self.inode(w) == (DiskInode {
            i_size: end as u32,
            i_blocks: self.inode(w).i_blocks,
            i_atime: v.time,
            i_mtime: v.time,
            ..before
        })
    }

    /// Adds `by` to the link count.
    pub fn increase_nlink<D: BlockDevice>(&self, fs: &mut Ext2FileSystem<D>, by: u16) -> (r: Result<(), Ext2Error>)
        requires
            old(fs).wf(),
            self.valid(old(fs)@),
        ensures
            final(fs).wf(),
            self.valid(final(fs)@),
            old(fs)@.same_geometry(final(fs)@),
            r is Ok <==> self.inode(old(fs)@).i_links_count + by <= u16::MAX,
            match r {
                Ok(_) => {
                    &&& final(fs)@ == old(fs)@.inode_written(
                        self.block_id as int,
                        self.block_offset as int,
                        self.inode(final(fs)@),
                    )
                    &&& self.inode(final(fs)@) == (DiskInode {
                        i_links_count: (self.inode(old(fs)@).i_links_count + by) as u16,
                        ..self.inode(old(fs)@)
                    })
                },
                Err(e) => e == Ext2Error::InvalidData && final(fs)@ == old(fs)@,
            },
    {
        let mut inode = self.read_disk_inode(fs);
        if inode.i_links_count > u16::MAX - by {
            return Err(Ext2Error::InvalidData);
        }
        inode.i_links_count = inode.i_links_count + by;
        self.modify_disk_inode(fs, &inode);
        Ok(())
    }

    /// `w` is `v` after the sound file lost links and kept `links`, which
    /// are some: it is the same file with that link count.
    pub open spec fn relinked(&self, v: FsView, w: FsView, links: int) -> bool {
        &&& self.sound(w)
        &&& self.bytes(w) == self.bytes(v)
        &&& self.inode(w) == (DiskInode { i_links_count: links as u16, ..self.inode(v) })
        &&& self.kept_to_itself(v, w)
        &&& only_blocks_counted(v, w)
    }

    /// `w` is `v` after the sound file lost its last link: its blocks are
    /// given back, its inode is marked as free, and both are counted.
    pub open spec fn removed(&self, v: FsView, w: FsView) -> bool {
        &&& !w.inode_used(self.inode_id as int)
        &&& self.inode(w).i_size == 0
        &&& self.inode(w).i_links_count == 0
        &&& self.kept_to_itself(v, w)
        &&& w.super_block.s_free_inodes_count == v.super_block.s_free_inodes_count + 1
        &&& w.super_block.s_free_blocks_count == v.super_block.s_free_blocks_count + blocks_between(
            0,
            blocks_for(self.inode(v).i_size as int),
        )
    }

    /// Takes `by` from the link count. A file that no link is left to is
    /// emptied and its inode given back. Fails with `Corruption` where the
    /// file has fewer links; on a sound file nothing else fails.
    #[verifier::rlimit(60)]
    pub fn decrease_nlink<D: BlockDevice>(&self, fs: &mut Ext2FileSystem<D>, by: u16) -> (r: Result<(), Ext2Error>)
        requires
            old(fs).wf(),
            self.valid(old(fs)@),
        ensures
            final(fs).wf(),
            old(fs)@.same_geometry(final(fs)@),
            self.valid(final(fs)@),
            final(fs)@.time == old(fs)@.time,
            only_file_changed(old(fs)@, final(fs)@, self.pos()),
            forall|i: int|
                1 <= i <= old(fs)@.super_block.s_inodes_count && i != self.inode_id ==> #[trigger] final(fs)@.inode_used(i) == old(fs)@.inode_used(i),
            self.inode(old(fs)@).i_links_count < by ==> (r matches Err(e) && e == Ext2Error::Corruption && final(fs)@ == old(fs)@),
            r matches Err(e) ==> e == Ext2Error::Corruption,
            r is Ok ==> final(fs)@.super_block.s_free_inodes_count == old(fs)@.super_block.s_free_inodes_count
                + if self.inode(old(fs)@).i_links_count == by {
                1int
            } else {
                0int
            },
            r is Ok && self.inode(old(fs)@).i_links_count > by ==> {
                &&& final(fs)@ == old(fs)@.inode_written(
                    self.block_id as int,
                    self.block_offset as int,
                    self.inode(final(fs)@),
                )
                &&& self.inode(final(fs)@) == (DiskInode {
                    i_links_count: (self.inode(old(fs)@).i_links_count - by) as u16,
                    ..self.inode(old(fs)@)
                })
            },
            self.sound(old(fs)@) ==> {
                &&& r is Ok <==> self.inode(old(fs)@).i_links_count >= by
                &&& r is Ok && self.inode(old(fs)@).i_links_count > by ==> self.relinked(
                    old(fs)@,
                    final(fs)@,
                    self.inode(old(fs)@).i_links_count - by,
                )
                &&& r is Ok && self.inode(old(fs)@).i_links_count == by ==> self.removed(old(fs)@, final(fs)@)
            },
    {
        let ghost v0 = fs@;
        let ghost pos = self.pos();
        let mut inode = self.read_disk_inode(fs);
        proof {
            self.lemma_valid(v0, v0);
            lemma_only_file_changed_refl(v0, pos);
        }
        if inode.i_links_count < by {
            return Err(Ext2Error::Corruption);
        }
        inode.i_links_count = inode.i_links_count - by;
        self.modify_disk_inode(fs, &inode);
        let ghost v1 = fs@;
        proof {
            lemma_inode_is_file_changed(v0, pos, inode);
            lemma_written_counted(
                v0,
                pos.block,
                pos.off,
                inode.store(v0.disk[pos.block].subrange(pos.off, pos.off + 128)),
            );
            if self.sound(v0) {
                self.lemma_restored(v0, inode);
            }
        }
        if inode.i_links_count == 0 {
            match self.clear(fs) {
                Ok(_) => {},
                Err(e) => {
                    proof {
                        lemma_only_file_changed_trans(v0, v1, fs@, pos);
                        lemma_counted_trans(v0, v1, fs@);
                    }
                    return Err(e);
                },
            }
            let ghost v2 = fs@;
            proof {
                lemma_only_file_changed_trans(v0, v1, v2, pos);
                lemma_counted_trans(v0, v1, v2);
                self.lemma_valid(v0, v2);
            }
            match fs.dealloc_inode(self.inode_id as u32) {
                Ok(_) => {},
                Err(e) => {
                    return Err(e);
                },
            }
            proof {
                let v3 = fs@;
                self.lemma_valid(v2, v3);
                self.lemma_freed(v0, v1, v2, v3);
            }
        }
        Ok(())
    }

    /// What is left of a file system when the last link to a file was
    /// taken: the inode was stored with no link, the file was emptied, and
    /// the inode given back.
    pub proof fn lemma_freed(&self, v0: FsView, v1: FsView, v2: FsView, v3: FsView)
        requires
            v0.wf(),
            v2.wf(),
            self.valid(v0),
            v0.same_geometry(v2),
            only_file_changed(v0, v2, self.pos()),
            only_blocks_counted(v0, v2),
            v2.gave_inode(v3, self.inode_id as int),
            self.sound(v0) ==> {
                &&& self.sound(v1)
                &&& self.kept_to_itself(v0, v1)
                &&& self.inode(v1).i_size == self.inode(v0).i_size
                &&& self.sound(v2)
                &&& self.kept_to_itself(v1, v2)
                &&& v0.same_geometry(v1)
                &&& self.inode(v2).i_size == 0
                &&& self.inode(v2).i_links_count == 0
                &&& v2.super_block.s_free_blocks_count == v0.super_block.s_free_blocks_count + blocks_between(
                    0,
                    blocks_for(self.inode(v0).i_size as int),
                )
            },
        ensures
            only_file_changed(v0, v3, self.pos()),
            forall|i: int|
                1 <= i <= v0.super_block.s_inodes_count && i != self.inode_id ==> #[trigger] v3.inode_used(i)
                    == v0.inode_used(i),
            self.sound(v0) ==> self.removed(v0, v3),
    {
        let pos = self.pos();
        self.lemma_valid(v0, v2);
        v0.lemma_same_geometry(v2);
        assert forall|b: int|
            0 <= b < v0.disk.len() && !v0.is_data(b) && !v0.is_bitmap(b) && b != pos.block implies #[trigger] v3.disk[b]
            == v0.disk[b] by {
            assert(v2.disk[b] == v0.disk[b]);
        }
        assert forall|j: int| 0 <= j < BLOCK_SIZE && !(pos.off <= j < pos.off + 128) implies #[trigger] v3.disk[pos.block][j]
            == v0.disk[pos.block][j] by {
            assert(v2.disk[pos.block][j] == v0.disk[pos.block][j]);
        }
        assert forall|i: int| 1 <= i <= v0.super_block.s_inodes_count && i != self.inode_id implies #[trigger] v3.inode_used(
            i,
        ) == v0.inode_used(i) by {
            assert(v2.inode_used(i) == v0.inode_used(i));
        }
        if self.sound(v0) {
            let nb = blocks_for(self.inode(v0).i_size as int);
            lemma_stepped_trans(v0, v1, v2, pos, nb, nb, 0);
            assert forall|x: int| 0 <= x < v2.disk.len() && v2.is_data(x) implies #[trigger] v3.disk[x] == v2.disk[x] by {
                v2.lemma_data_block(x);
            }
            self.lemma_valid(v2, v3);
            crate::sound::lemma_sound_empty(v3, pos);
            lemma_meta_stepped(v2, v3, pos, 0);
            lemma_stepped_trans(v0, v2, v3, pos, nb, 0, 0);
            assert(v3.disk[pos.block] == v2.disk[pos.block]);
        }
    }

    /// `w` is `v` after the sound file `target` got the name `name` in
    /// this sound directory: the directory holds an entry for the file
    /// behind what it held, the file counts a link more, and both are
    /// sound and apart as before.
    pub open spec fn linked(&self, v: FsView, w: FsView, name: Seq<u8>, target: Inode) -> bool {
        &&& self.sound(w)
        &&& self.bytes(w) == self.bytes(v) + entry_bytes(target.inode_id as u32, name, target.kind(v))
        &&& self.inode(w).i_mode == self.inode(v).i_mode
        &&& self.inode(w).i_links_count == self.inode(v).i_links_count
        &&& target.sound(w)
        &&& target.bytes(w) == target.bytes(v)
        &&& target.inode(w) == (DiskInode {
            i_links_count: (target.inode(v).i_links_count + 1) as u16,
            ..target.inode(v)
        })
        &&& self.apart_from(target, w)
        &&& only_blocks_counted(v, w)
    }

    /// Gives the file behind `target` one more name, `name`, in this
    /// directory, whatever kind of file it is: appends the entry and counts
    /// the link. Fails, and changes nothing, with `InvalidData` where the
    /// link count is at its limit, and with `NoSpace` where the directory
    /// cannot take the entry; on sound files that are apart nothing else
    /// fails.
    #[verifier::rlimit(60)]
    pub fn link_any<D: BlockDevice>(&self, fs: &mut Ext2FileSystem<D>, name: &[u8], target: &Inode) -> (r: Result<
        (),
        Ext2Error,
    >)
        requires
            old(fs).wf(),
            self.valid(old(fs)@),
            target.valid(old(fs)@),
        ensures
            final(fs).wf(),
            old(fs)@.same_geometry(final(fs)@),
            self.valid(final(fs)@),
            target.valid(final(fs)@),
            final(fs)@.time == old(fs)@.time,
            r matches Err(e) ==> e == Ext2Error::NoSpace || e == Ext2Error::Corruption || e
                == Ext2Error::InvalidData,
            r matches Err(e) && (e == Ext2Error::NoSpace || e == Ext2Error::InvalidData) ==> final(fs)@ == old(fs)@,
            target.inode(old(fs)@).i_links_count == u16::MAX <==> (r matches Err(e) && e == Ext2Error::InvalidData),
            self.sound(old(fs)@) && target.sound(old(fs)@) && self.apart_from(*target, old(fs)@) ==> {
                &&& r is Ok <==> target.inode(old(fs)@).i_links_count < u16::MAX && self.has_room(
                    old(fs)@,
                    name@.len() as int,
                    0,
                )
                &&& r is Ok ==> self.linked(old(fs)@, final(fs)@, name@, *target)
                &&& (r matches Err(e) ==> e != Ext2Error::Corruption)
            },
    {
        let ghost v0 = fs@;
        let inode = target.read_disk_inode(fs);
        if inode.i_links_count == u16::MAX {
            return Err(Ext2Error::InvalidData);
        }
        let code = if target.file_type == EXT2_FT_UNKNOWN {
            inode.file_code()
        } else {
            target.file_type
        };
        match self.append_dir_entry(fs, target.inode_id, name, code) {
            Ok(_) => {},
            Err(e) => {
                proof {
                    target.lemma_valid(v0, fs@);
                }
                return Err(e);
            },
        }
        let ghost v1 = fs@;
        proof {
            target.lemma_valid(v0, v1);
            if self.sound(v0) && target.sound(v0) && self.apart_from(*target, v0) {
                self.lemma_leaves_alone(*target, v0, v1);
            }
        }
        let mut theirs = target.read_disk_inode(fs);
        if theirs.i_links_count == u16::MAX {
            return Err(Ext2Error::Corruption);
        }
        theirs.i_links_count = theirs.i_links_count + 1;
        target.modify_disk_inode(fs, &theirs);
        proof {
            let v2 = fs@;
            self.lemma_valid(v1, v2);
            if self.sound(v0) && target.sound(v0) && self.apart_from(*target, v0) {
                target.lemma_valid(v1, v1);
                let region = v1.disk[target.block_id as int].subrange(
                    target.block_offset as int,
                    target.block_offset + 128,
                );
                target.lemma_restored(v1, theirs);
                lemma_written_counted(v1, target.block_id as int, target.block_offset as int, theirs.store(region));
                lemma_counted_trans(v0, v1, v2);
                self.lemma_slot_written(*target, v1, target.block_offset as int, theirs.store(region));
                theirs.lemma_store_parse(region);
                self.lemma_both_alone_after(*target, v1, v2);
            }
        }
        Ok(())
    }

    /// The handle on the inode `id` in `v`, which knows the kind of file
    /// from the inode.
    pub open spec fn handle_of(v: FsView, id: int) -> Inode {
        let pos = inode_pos(v.groups, id);
        Inode {
            inode_id: id as usize,
            block_id: pos.0 as usize,
            block_offset: pos.1 as usize,
            file_type: v.disk_inode(pos.0, pos.1).spec_file_code(),
        }
    }

    /// Why the inode `id` cannot get the name `name` in this sound
    /// directory, if it cannot: there is no such inode, or the name is
    /// taken, or the inode is a directory, or no regular file, or the name
    /// is empty, or the link count of the file is at its limit, or the
    /// directory has no room for the entry.
    pub open spec fn link_outcome(&self, v: FsView, name: Seq<u8>, id: int) -> Option<Ext2Error> {
        let target = Self::handle_of(v, id);
        if !(1 <= id <= v.super_block.s_inodes_count) {
            Some(Ext2Error::NotFound)
        } else if lookup(self.bytes(v), name) is Found {
            Some(Ext2Error::AlreadyExists)
        } else if target.kind(v) == EXT2_FT_DIR {
            Some(Ext2Error::IsADirectory)
        } else if target.kind(v) != EXT2_FT_REG_FILE || name.len() == 0 || target.inode(v).i_links_count
            == u16::MAX {
            Some(Ext2Error::InvalidData)
        } else if !self.has_room(v, name.len() as int, 0) {
            Some(Ext2Error::NoSpace)
        } else {
            None
        }
    }

    /// Gives the regular file with the inode `inode_id` one more name,
    /// `name`, in this directory. Fails, and changes nothing, with
    /// `NotFound` where there is no such inode, with `NotADirectory` where
    /// this is no directory, with `AlreadyExists` where the name is taken,
    /// with `IsADirectory` where the inode is a directory, with
    /// `InvalidData` where it is another kind of file that is not regular,
    /// the name is empty or the link count at its limit, and with `NoSpace`
    /// where the directory cannot take the entry. On a sound directory and
    /// a sound file that are apart nothing else fails.
    #[verifier::rlimit(60)]
    pub fn link<D: BlockDevice>(&self, fs: &mut Ext2FileSystem<D>, name: &str, inode_id: usize) -> (r: Result<
        (),
        Ext2Error,
    >)
        requires
            old(fs).wf(),
            self.valid(old(fs)@),
        ensures
            final(fs).wf(),
            old(fs)@.same_geometry(final(fs)@),
            self.valid(final(fs)@),
            final(fs)@.time == old(fs)@.time,
            inode_id == 0 || inode_id > old(fs)@.super_block.s_inodes_count ==> (r matches Err(e) && e == Ext2Error::NotFound),
            r matches Err(e) && e != Ext2Error::Corruption ==> final(fs)@ == old(fs)@,
            r is Ok ==> final(fs)@.meta_on_disk(),
            self.dir_sound(old(fs)@) && (1 <= inode_id <= old(fs)@.super_block.s_inodes_count ==> Self::handle_of(
                old(fs)@,
                inode_id as int,
            ).sound(old(fs)@) && self.apart_from(Self::handle_of(old(fs)@, inode_id as int), old(fs)@)) ==> match r {
                Ok(_) => {
                    &&& self.link_outcome(old(fs)@, name.spec_bytes(), inode_id as int) is None
                    &&& self.linked(
                        old(fs)@,
                        final(fs)@,
                        name.spec_bytes(),
                        Self::handle_of(old(fs)@, inode_id as int),
                    )
                    &&& self.dir_sound(final(fs)@)
                },
                Err(e) => self.link_outcome(old(fs)@, name.spec_bytes(), inode_id as int) == Some(e),
            },
    {
        let ghost v0 = fs@;
        let ghost given = name.spec_bytes();
        let target = match fs.get_inode(inode_id) {
            Some(t) => t,
            None => {
                return Err(Ext2Error::NotFound);
            },
        };
        proof {
            target.lemma_valid(v0, v0);
            assert(target == Self::handle_of(v0, inode_id as int));
            if self.dir_sound(v0) {
                self.lemma_content(v0);
                lemma_appended(self.bytes(v0), 0, seq![0u8], 0, 0, given, 0, 0);
            }
        }
        match self.find_inode_id(fs, name.as_bytes()) {
            Ok(Some(_)) => {
                return Err(Ext2Error::AlreadyExists);
            },
            Ok(None) => {},
            Err(e) => {
                return Err(e);
            },
        }
        let kind = target.file_type(fs);
        if kind == EXT2_FT_DIR {
            return Err(Ext2Error::IsADirectory);
        }
        if kind != EXT2_FT_REG_FILE || name.as_bytes().len() == 0 {
            return Err(Ext2Error::InvalidData);
        }
        match self.link_any(fs, name.as_bytes(), &target) {
            Ok(_) => {},
            Err(e) => {
                return Err(e);
            },
        }
        let ghost mid = fs@;
        fs.write_meta();
        proof {
            self.lemma_valid(mid, fs@);
            target.lemma_valid(mid, fs@);
            if self.dir_sound(v0) && target.sound(v0) && self.apart_from(target, v0) {
                lemma_appended(self.bytes(v0), target.inode_id as u32, given, target.kind(v0), 0, given, 0, 0);
                self.lemma_meta_written(mid, fs@);
                target.lemma_meta_written(mid, fs@);
                self.lemma_both_alone(target, mid, fs@);
                lemma_counted_refl(fs@);
                assert(only_blocks_counted(v0, fs@)) by {
                    assert(only_blocks_counted(v0, mid));
                    mid.lemma_marks_kept(fs@);
                }
            }
        }
        Ok(())
    }

    /// Why a file `name` of the kind `file_type` cannot be made in this
    /// directory, if it cannot: this is no directory, or the name is
    /// taken, or empty, or the link count of the directory is at its limit
    /// and the file would be a directory, or there is no room for the
    /// entry, with a block to spare for a new directory, or no inode is
    /// free.
    pub open spec fn create_outcome(&self, v: FsView, name: Seq<u8>, file_type: u16) -> Option<Ext2Error> {
        let is_dir = file_type & EXT2_S_IFMT == EXT2_S_IFDIR;
        if self.kind(v) != EXT2_FT_DIR {
            Some(Ext2Error::NotADirectory)
        } else if lookup(self.bytes(v), name) is Found {
            Some(Ext2Error::AlreadyExists)
        } else if name.len() == 0 || (is_dir && self.inode(v).i_links_count == u16::MAX) {
            Some(Ext2Error::InvalidData)
        } else if !self.has_room(v, name.len() as int, if is_dir {
            1
        } else {
            0
        }) || v.super_block.s_free_inodes_count == 0 {
            Some(Ext2Error::NoSpace)
        } else {
            None
        }
    }

    /// `w` is `v` after the file `child` of the kind `file_type` was made
    /// under the name `name` in this sound directory: the inode of the
    /// child was the lowest free one and is marked as used; the directory holds an entry
    /// for the child behind what it held; the child is a sound file with
    /// one link and no content, or a sound directory with two links that
    /// holds the entries `.`, for itself, and `..`, for this directory,
    /// which then counts a link more; and the two are apart.
    pub open spec fn created(&self, v: FsView, w: FsView, name: Seq<u8>, file_type: u16, child: Inode) -> bool {
        let is_dir = file_type & EXT2_S_IFMT == EXT2_S_IFDIR;
        let entry = entry_bytes(child.inode_id as u32, name, file_code_of(file_type));
        &&& child.valid(w)
        &&& child.inode_id != self.inode_id
        &&& !v.inode_used(child.inode_id as int)
        &&& child.file_type == file_code_of(file_type)
        &&& w.super_block.s_free_inodes_count == v.super_block.s_free_inodes_count - 1
        &&& w.super_block.s_free_blocks_count == v.super_block.s_free_blocks_count - blocks_between(
            blocks_for(self.inode(v).i_size as int),
            blocks_for(self.inode(v).i_size + entry.len()),
        ) - if is_dir {
            blocks_between(0, blocks_for(19))
        } else {
            0
        }
        &&& self.dir_sound(w)
        &&& self.bytes(w) == self.bytes(v) + entry
        &&& self.inode(w).i_links_count == self.inode(v).i_links_count + if is_dir {
            1int
        } else {
            0int
        }
        &&& self.inode(w).i_mode == self.inode(v).i_mode
        &&& self.inode(w) == (DiskInode {
            i_size: self.inode(w).i_size,
            i_blocks: self.inode(w).i_blocks,
            i_links_count: self.inode(w).i_links_count,
            i_atime: v.time,
            i_mtime: v.time,
            ..self.inode(v)
        })
        &&& child.sound(w)
        &&& child.inode(w).i_mode == DEFAULT_IMODE | (file_type & EXT2_S_IFMT)
        &&& child.inode(w).i_links_count == if is_dir {
            2int
        } else {
            1int
        }
        &&& child.inode(w) == (DiskInode {
            i_size: child.inode(w).i_size,
            i_blocks: child.inode(w).i_blocks,
            i_links_count: child.inode(w).i_links_count,
            i_atime: v.time,
            i_ctime: v.time,
            i_mtime: if is_dir {
                v.time
            } else {
                0
            },
            ..DiskInode::fresh(DEFAULT_IMODE | (file_type & EXT2_S_IFMT), 0, 0)
        })
        &&& child.bytes(w) == if is_dir {
            entry_bytes(child.inode_id as u32, dot(), EXT2_FT_DIR) + entry_bytes(
                self.inode_id as u32,
                dot_dot(),
                EXT2_FT_DIR,
            )
        } else {
            Seq::<u8>::empty()
        }
        &&& self.apart_from(child, w)
        &&& self.made_beside(child, v, w)
        &&& forall|i: int|
            1 <= i <= v.super_block.s_inodes_count ==> #[trigger] w.inode_used(i) == (i == child.inode_id
                || v.inode_used(i))
        &&& forall|i: int| 1 <= i < child.inode_id ==> #[trigger] v.inode_used(i)
        &&& w.meta_on_disk()
    }

    /// Takes a free inode and makes it that of an empty file of the kind
    /// `kind`. Returns `None`, and changes nothing, where no inode is free.
    /// Every sound file is left alone.
    pub fn make_child<D: BlockDevice>(fs: &mut Ext2FileSystem<D>, kind: u16) -> (r: Option<Inode>)
        requires
            old(fs).wf(),
        ensures
            final(fs).wf(),
            old(fs)@.same_geometry(final(fs)@),
            final(fs)@.time == old(fs)@.time,
            r is None <==> old(fs)@.super_block.s_free_inodes_count == 0,
            r is None ==> final(fs)@ == old(fs)@,
            r matches Some(child) ==> {
                &&& child.sound(final(fs)@)
                &&& !old(fs)@.inode_used(child.inode_id as int)
                &&& child.file_type == file_code_of(kind)
                &&& child.bytes(final(fs)@) == Seq::<u8>::empty()
                &&& child.inode(final(fs)@) == (DiskInode {
                    i_atime: old(fs)@.time,
                    i_ctime: old(fs)@.time,
                    ..DiskInode::fresh(DEFAULT_IMODE | kind, 0, 0)
                })
                &&& final(fs)@.super_block.s_free_inodes_count == old(fs)@.super_block.s_free_inodes_count - 1
                &&& final(fs)@.super_block.s_free_blocks_count == old(fs)@.super_block.s_free_blocks_count
                &&& forall|other: Inode|
                    other.sound(old(fs)@) ==> #[trigger] other.quiet(old(fs)@, final(fs)@) && other.inode_id
                        != child.inode_id
                &&& forall|i: int|
                    1 <= i <= old(fs)@.super_block.s_inodes_count ==> #[trigger] final(fs)@.inode_used(i) == (i
                        == child.inode_id || old(fs)@.inode_used(i))
                &&& forall|i: int| 1 <= i < child.inode_id ==> #[trigger] old(fs)@.inode_used(i)
            },
    {
        let ghost v0 = fs@;
        let id = match fs.alloc_inode() {
            Some(id) => id,
            None => {
                return None;
            },
        };
        let ghost v1 = fs@;
        let child = Inode::init(fs, id, kind);
        proof {
            let v2 = fs@;
            v0.lemma_same_geometry(v1);
            assert forall|other: Inode| other.sound(v0) implies #[trigger] other.quiet(v0, v2) && other.inode_id
                != child.inode_id by {
                let nb = blocks_for(other.inode(v0).i_size as int);
                other.lemma_valid(v0, v1);
                assert forall|x: int| 0 <= x < v0.disk.len() && v0.is_data(x) implies #[trigger] v1.disk[x]
                    == v0.disk[x] by {
                    v0.lemma_data_block(x);
                }
                lemma_meta_quiet(v0, v1, other.pos(), nb);
                assert(other.quiet(v0, v1));
                other.lemma_left_alone(v0, v1);
                assert(other.quiet(v1, v2));
                lemma_quiet_trans(v0, v1, v2, other.pos(), nb);
            }
        }
        Some(child)
    }

    /// Makes a new file of the kind `file_type` under the name `name` in
    /// this directory, and returns a handle on it. A new directory gets its
    /// entries `.` and `..`. Fails, and changes nothing, with
    /// `NotADirectory` where this is no directory, with `AlreadyExists`
    /// where the name is taken, with `InvalidData` where the name is empty
    /// or a link count at its limit, and with `NoSpace` where no inode is
    /// free or too few blocks are. On a sound directory nothing else
    /// fails.
    #[verifier::rlimit(80)]
    pub fn create<D: BlockDevice>(&self, fs: &mut Ext2FileSystem<D>, name: &str, file_type: u16) -> (r: Result<
        Inode,
        Ext2Error,
    >)
        requires
            old(fs).wf(),
            self.valid(old(fs)@),
        ensures
            final(fs).wf(),
            old(fs)@.same_geometry(final(fs)@),
            self.valid(final(fs)@),
            final(fs)@.time == old(fs)@.time,
            match r {
                Ok(inode) => {
                    &&& inode.valid(final(fs)@)
                    &&& !old(fs)@.inode_used(inode.inode_id as int)
                    &&& inode.file_type == file_code_of(file_type)
                    &&& self.kind(old(fs)@) == EXT2_FT_DIR
                    &&& self.found(old(fs)@, name.spec_bytes()) == Ok::<Option<FoundEntry>, Ext2Error>(None)
                    &&& final(fs)@.meta_on_disk()
                },
                Err(e) => {
                    &&& e != Ext2Error::Corruption ==> final(fs)@ == old(fs)@
                    &&& e == Ext2Error::AlreadyExists <==> self.kind(old(fs)@) == EXT2_FT_DIR && self.has_name(
                        old(fs)@,
                        name.spec_bytes(),
                    )
                    &&& e == Ext2Error::NotADirectory <==> self.kind(old(fs)@) != EXT2_FT_DIR || !self.inode(
                        old(fs)@,
                    ).spec_is_dir()
                },
            },
            self.dir_sound(old(fs)@) ==> match r {
                Ok(child) => self.create_outcome(old(fs)@, name.spec_bytes(), file_type) is None && self.created(
                    old(fs)@,
                    final(fs)@,
                    name.spec_bytes(),
                    file_type,
                    child,
                ),
                Err(e) => self.create_outcome(old(fs)@, name.spec_bytes(), file_type) == Some(e),
            },
    {
        let ghost v0 = fs@;
        let ghost given = name.spec_bytes();
        if self.file_type(fs) != EXT2_FT_DIR {
            return Err(Ext2Error::NotADirectory);
        }
        let name_bytes = name.as_bytes();
        proof {
            if self.dir_sound(v0) {
                self.lemma_content(v0);
                lemma_appended(self.bytes(v0), 0, seq![0u8], 0, 0, given, 0, 0);
            }
        }
        match self.find_inode_id(fs, name_bytes) {
            Ok(Some(_)) => {
                return Err(Ext2Error::AlreadyExists);
            },
            Ok(None) => {},
            Err(e) => {
                return Err(e);
            },
        }
        let kind = file_type & EXT2_S_IFMT;
        let is_dir = kind == EXT2_S_IFDIR;
        proof {
            assert(file_code_of(kind) == file_code_of(file_type)) by {
                let m = file_type;
                assert((m & 0xF000u16) & 0xF000u16 == m & 0xF000u16) by (bit_vector);
            }
        }
        let mine = self.read_disk_inode(fs);
        if name_bytes.len() == 0 || (is_dir && mine.i_links_count == u16::MAX) {
            return Err(Ext2Error::InvalidData);
        }
        // Make sure of the room before anything is changed.
        if !self.room_for_entry(fs, name_bytes.len(), if is_dir {
            1
        } else {
            0
        }) {
            return Err(Ext2Error::NoSpace);
        }
        let new_inode = match Inode::make_child(fs, kind) {
            Some(c) => c,
            None => {
                return Err(Ext2Error::NoSpace);
            },
        };
        let ghost v1 = fs@;
        proof {
            self.lemma_valid(v0, v1);
            assert(v1.wf());
            if self.dir_sound(v0) {
                assert(self.quiet(v0, v1));
                self.lemma_left_alone(v0, v1);
            }
        }
        match self.append_dir_entry(fs, new_inode.inode_id, name_bytes, new_inode.file_type) {
            Ok(_) => {},
            Err(e) => {
                proof {
                    new_inode.lemma_valid(v1, fs@);
                }
                return Err(Ext2Error::Corruption);
            },
        }
        let ghost v2 = fs@;
        proof {
            new_inode.lemma_valid(v1, v2);
            assert(v2.wf());
            if self.dir_sound(v0) {
                lemma_apart_empty(
                    v1,
                    new_inode.pos(),
                    self.pos(),
                    blocks_for(self.inode(v1).i_size as int),
                );
                reveal_with_fuel(blocks_between, 1);
                self.lemma_leaves_alone(new_inode, v1, v2);
                self.lemma_step_spares(new_inode, v1, v2);
                lemma_appended(self.bytes(v0), new_inode.inode_id as u32, given, new_inode.file_type, 0, given, 0, 0);
            }
        }
        if is_dir {
            proof {
                if self.dir_sound(v0) {
                    lemma_apart_sym(
                        v2,
                        self.pos(),
                        blocks_for(self.inode(v2).i_size as int),
                        new_inode.pos(),
                        blocks_for(new_inode.inode(v2).i_size as int),
                    );
                    reveal_with_fuel(blocks_between, 2);
                }
            }
            match new_inode.link_dots(fs, self) {
                Ok(_) => {},
                Err(e) => {
                    return Err(Ext2Error::Corruption);
                },
            }
            proof {
                if self.dir_sound(v0) {
                    let v3 = fs@;
                    lemma_apart_sym(
                        v3,
                        new_inode.pos(),
                        blocks_for(new_inode.inode(v3).i_size as int),
                        self.pos(),
                        blocks_for(self.inode(v3).i_size as int),
                    );
                    assert(new_inode.bytes(v3) =~= entry_bytes(new_inode.inode_id as u32, dot(), EXT2_FT_DIR)
                        + entry_bytes(self.inode_id as u32, dot_dot(), EXT2_FT_DIR));
                    new_inode.lemma_spares_sym(*self, v2, v3);
                    self.lemma_spares_twice(new_inode, v1, v2, v3);
                }
            }
        }
        let ghost v6 = fs@;
        proof {
            assert(v6.wf());
        }
        fs.write_meta();
        proof {
            self.lemma_valid(v6, fs@);
            new_inode.lemma_valid(v6, fs@);
            if self.dir_sound(v0) {
                self.lemma_meta_written(v6, fs@);
                new_inode.lemma_meta_written(v6, fs@);
                self.lemma_both_alone(new_inode, v6, fs@);
                self.lemma_meta_spares(new_inode, v6, fs@);
                self.lemma_spares_twice(new_inode, v1, v6, fs@);
                self.lemma_made_beside(new_inode, v0, v1, fs@);
                assert forall|i: int| 1 <= i <= v0.super_block.s_inodes_count implies #[trigger] fs@.inode_used(i)
                    == (i == new_inode.inode_id || v0.inode_used(i)) by {
                    assert(v1.inode_used(i) == (i == new_inode.inode_id || v0.inode_used(i)));
                    assert(v2.inode_used(i) == v1.inode_used(i));
                    assert(v6.inode_used(i) == v2.inode_used(i));
                    v6.lemma_inode_mark_kept(fs@, i);
                }
            }
        }
        Ok(new_inode)
    }

    /// Writing the superblock and the descriptors leaves a sound file
    /// alone.
    pub proof fn lemma_meta_written(&self, v: FsView, w: FsView)
        requires
            v.wf(),
            self.sound(v),
            v.same_geometry(w),
            w.super_block == v.super_block,
            w.groups == v.groups,
            forall|x: int|
                1 + crate::efs::desc_block_count(v.groups.len() as int) <= x < v.disk.len() ==> #[trigger] w.disk[x]
                    == v.disk[x],
        ensures
            self.quiet(v, w),
            self.sound(w),
            self.inode(w) == self.inode(v),
            self.bytes(w) == self.bytes(v),
    {
        self.lemma_valid(v, w);
        v.lemma_inode_table_high(self.inode_id as int);
        v.lemma_bitmaps_high();
        lemma_low_quiet(v, w, self.pos(), blocks_for(self.inode(v).i_size as int));
        v.lemma_inode_mark_kept(w, self.inode_id as int);
        self.lemma_left_alone(v, w);
    }

    /// Two files that are apart and were both left alone are apart as
    /// before.
    pub proof fn lemma_both_alone(&self, other: Inode, v: FsView, w: FsView)
        requires
            v.wf(),
            self.sound(v),
            other.sound(v),
            self.apart_from(other, v),
            self.quiet(v, w),
            other.quiet(v, w),
        ensures
            self.apart_from(other, w),
    {
        self.lemma_left_alone(v, w);
        other.lemma_left_alone(v, w);
        crate::sound::lemma_apart_kept(
            v,
            w,
            self.pos(),
            blocks_for(self.inode(v).i_size as int),
            other.pos(),
            blocks_for(other.inode(v).i_size as int),
        );
    }

    /// `w` is `v` after a symbolic link `link` that holds `path` was made
    /// under the name `name` in this sound directory: the directory holds
    /// an entry for the link behind what it held, the link is a sound file
    /// with one link that holds `path`, and the two are apart.
    pub open spec fn linked_to(&self, v: FsView, w: FsView, name: Seq<u8>, path: Seq<u8>, link: Inode) -> bool {
        &&& link.valid(w)
        &&& !v.inode_used(link.inode_id as int)
        &&& self.dir_sound(w)
        &&& self.bytes(w) == self.bytes(v) + entry_bytes(link.inode_id as u32, name, EXT2_FT_SYMLINK)
        &&& self.inode(w).i_links_count == self.inode(v).i_links_count
        &&& link.sound(w)
        &&& link.inode(w).i_mode == DEFAULT_IMODE | EXT2_S_IFLNK
        &&& link.inode(w).i_links_count == 1
        &&& link.bytes(w) == path
        &&& self.apart_from(link, w)
    }

    /// Makes a symbolic link under the name `name` in this directory that
    /// holds the path `path_name`. Fails as `create` does, without a
    /// change; and with `NoSpace` where the link is made but too few blocks
    /// are free to hold the path, which then stays empty.
    #[verifier::rlimit(60)]
    pub fn symlink<D: BlockDevice>(&self, fs: &mut Ext2FileSystem<D>, name: &str, path_name: &str) -> (r: Result<
        (),
        Ext2Error,
    >)
        requires
            old(fs).wf(),
            self.valid(old(fs)@),
            path_name.spec_bytes().len() <= u32::MAX,
        ensures
            final(fs).wf(),
            old(fs)@.same_geometry(final(fs)@),
            self.valid(final(fs)@),
            final(fs)@.time == old(fs)@.time,
            r matches Err(e) ==> {
                &&& e == Ext2Error::AlreadyExists <==> self.kind(old(fs)@) == EXT2_FT_DIR && self.has_name(
                    old(fs)@,
                    name.spec_bytes(),
                )
                &&& e == Ext2Error::NotADirectory <==> self.kind(old(fs)@) != EXT2_FT_DIR || !self.inode(
                    old(fs)@,
                ).spec_is_dir()
            },
            self.dir_sound(old(fs)@) ==> {
                &&& self.create_outcome(old(fs)@, name.spec_bytes(), EXT2_S_IFLNK) matches Some(e) ==> r == Err::<
                    (),
                    Ext2Error,
                >(e) && final(fs)@ == old(fs)@
                &&& self.create_outcome(old(fs)@, name.spec_bytes(), EXT2_S_IFLNK) is None ==> (r is Ok
                    <==> old(fs)@.super_block.s_free_blocks_count - blocks_between(
                    blocks_for(self.inode(old(fs)@).i_size as int),
                    blocks_for(self.inode(old(fs)@).i_size + entry_bytes(0, name.spec_bytes(), 0).len()),
                ) >= blocks_between(0, blocks_for(path_name.spec_bytes().len() as int)))
                &&& r is Ok ==> exists|link: Inode|
                    self.linked_to(old(fs)@, final(fs)@, name.spec_bytes(), path_name.spec_bytes(), link)
                &&& (r matches Err(e) ==> e != Ext2Error::Corruption)
                &&& self.create_outcome(old(fs)@, name.spec_bytes(), EXT2_S_IFLNK) is None && r is Err ==> r == Err::<
                    (),
                    Ext2Error,
                >(Ext2Error::NoSpace) && exists|link: Inode|
                    self.created(old(fs)@, final(fs)@, name.spec_bytes(), EXT2_S_IFLNK, link)
            },
    {
        let ghost v0 = fs@;
        let ghost given = name.spec_bytes();
        match self.create(fs, name, EXT2_S_IFLNK) {
            Ok(inode) => {
                let ghost v1 = fs@;
                let path = path_name.as_bytes();
                proof {
                    assert(0xA000u16 & 0xF000u16 == 0xA000u16) by (bit_vector);
                    assert(0xA000u16 & 0xF000u16 != 0x4000u16) by (bit_vector);
                    lemma_entry_bytes(inode.inode_id as u32, given, EXT2_FT_SYMLINK);
                    lemma_entry_bytes(0, given, 0);
                    if self.dir_sound(v0) {
                        reveal_with_fuel(blocks_between, 1);
                        lemma_apart_sym(
                            v1,
                            self.pos(),
                            blocks_for(self.inode(v1).i_size as int),
                            inode.pos(),
                            blocks_for(inode.inode(v1).i_size as int),
                        );
                    }
                }
                let disk_inode = inode.read_disk_inode(fs);
                if disk_inode.i_size as usize > u32::MAX as usize - path.len() {
                    return Err(Ext2Error::Corruption);
                }
                match inode.append(fs, path) {
                    Ok(_) => {
                        proof {
                            let v2 = fs@;
                            self.lemma_valid(v1, v2);
                            if self.dir_sound(v0) {
                                inode.lemma_leaves_alone(*self, v1, v2);
                                lemma_apart_sym(
                                    v2,
                                    inode.pos(),
                                    blocks_for(inode.inode(v2).i_size as int),
                                    self.pos(),
                                    blocks_for(self.inode(v2).i_size as int),
                                );
                                assert(inode.bytes(v2) =~= path@);
                                assert(self.linked_to(v0, v2, given, path@, inode));
                            }
                        }
                        Ok(())
                    },
                    Err(e) => {
                        proof {
                            self.lemma_valid(v1, fs@);
                            if self.dir_sound(v0) {
                                assert(fs@ == v1);
                                assert(self.created(v0, fs@, given, EXT2_S_IFLNK, inode));
                            }
                        }
                        Err(if e == Ext2Error::NoSpace {
                            Ext2Error::NoSpace
                        } else {
                            Ext2Error::Corruption
                        })
                    },
                }
            },
            Err(e) => Err(e),
        }
    }

    /// The handle that the entry with the head `head` of a directory leads
    /// to in `v`.
    pub open spec fn target_of(v: FsView, head: DirEntryHead) -> Inode {
        let pos = inode_pos(v.groups, head.inode as int);
        Inode {
            inode_id: head.inode as usize,
            block_id: pos.0 as usize,
            block_offset: pos.1 as usize,
            file_type: if head.file_type == EXT2_FT_UNKNOWN {
                v.disk_inode(pos.0, pos.1).spec_file_code()
            } else {
                head.file_type
            },
        }
    }

    /// The entry `name` can be taken out of this sound directory: the
    /// name is not `.` or `..`, an entry has it that is not the first,
    /// the entry before it can reach over it, and the entry leads to a
    /// sound file with a link, which is apart from the directory.
    pub open spec fn can_unlink(&self, v: FsView, name: Seq<u8>) -> bool {
        &&& self.dir_sound(v)
        &&& self.kind(v) == EXT2_FT_DIR
        &&& name != dot()
        &&& name != dot_dot()
        &&& lookup(self.bytes(v), name) matches Lookup::Found { head, pos, offset, prev_offset } && {
            &&& offset != 0
            &&& entry_head(self.bytes(v), prev_offset).rec_len + head.rec_len <= u16::MAX
            &&& 1 <= head.inode <= v.super_block.s_inodes_count
            &&& Self::target_of(v, head).sound(v)
            &&& Self::target_of(v, head).inode(v).i_links_count >= 1
            &&& self.apart_from(Self::target_of(v, head), v)
        }
    }

    /// `w` is `v` after the entry `name` was taken out of this sound
    /// directory: the entry before it reaches over it, so that the names in
    /// the directory are those before without the entry's; the directory
    /// is sound, and stamped; and the file that the entry led to has lost
    /// a link, and, with its last link, its blocks and its inode.
    pub open spec fn unlinked(&self, v: FsView, w: FsView, name: Seq<u8>) -> bool {
        let found = lookup(self.bytes(v), name);
        let target = Self::target_of(v, found->head);
        let links = target.inode(v).i_links_count;
        &&& self.dir_sound(w)
        &&& self.bytes(w) == reaching(self.bytes(v), found->prev_offset, found->head.rec_len)
        &&& names(self.bytes(w)) == Some(names_skip(self.bytes(v), 0, found->offset))
        &&& self.inode(w) == (DiskInode { i_atime: v.time, i_mtime: v.time, ..self.inode(v) })
        &&& links > 1 ==> {
            &&& target.sound(w)
            &&& target.bytes(w) == target.bytes(v)
            &&& target.inode(w) == (DiskInode { i_links_count: (links - 1) as u16, ..target.inode(v) })
            &&& self.apart_from(target, w)
            &&& w.super_block.s_free_inodes_count == v.super_block.s_free_inodes_count
            &&& w.super_block.s_free_blocks_count == v.super_block.s_free_blocks_count
        }
        &&& links == 1 ==> {
            &&& !w.inode_used(target.inode_id as int)
            &&& w.super_block.s_free_inodes_count == v.super_block.s_free_inodes_count + 1
            &&& w.super_block.s_free_blocks_count == v.super_block.s_free_blocks_count + blocks_between(
                0,
                blocks_for(target.inode(v).i_size as int),
            )
        }
        &&& self.spared_all(target, v, w)
    }

    /// From `v` to `w` this file and `target` have left every other file
    /// alone: no other inode was taken or given back, and a sound file
    /// that was apart from both is as it was, and apart from this file.
    pub open spec fn spared_all(&self, target: Inode, v: FsView, w: FsView) -> bool {
        &&& forall|i: int|
            1 <= i <= v.super_block.s_inodes_count && i != target.inode_id ==> #[trigger] w.inode_used(i)
                == v.inode_used(i)
        &&& forall|other: Inode|
            other.sound(v) && self.apart_from(other, v) && target.apart_from(other, v) ==> #[trigger] other.quiet(
                v,
                w,
            ) && self.apart_from(other, w)
    }

    /// From `v` to `w` this file and `by` have left every other file
    /// alone: a sound file that was apart from both is as it was, and
    /// apart from both.
    pub open spec fn spares(&self, by: Inode, v: FsView, w: FsView) -> bool {
        forall|other: Inode|
            other.sound(v) && self.apart_from(other, v) && by.apart_from(other, v) ==> #[trigger] other.quiet(v, w)
                && self.apart_from(other, w) && by.apart_from(other, w)
    }

    /// What a file does to itself leaves alone every sound file that is
    /// apart from it and from a sound file beside it, which it is apart
    /// from too.
    pub proof fn lemma_step_spares(&self, by: Inode, v: FsView, w: FsView)
        requires
            v.wf(),
            w.wf(),
            v.same_geometry(w),
            self.valid(v),
            by.sound(v),
            self.apart_from(by, v),
            self.kept_to_itself(v, w),
            only_file_changed(v, w, self.pos()),
            forall|i: int|
                1 <= i <= v.super_block.s_inodes_count && i != self.inode_id ==> #[trigger] w.inode_used(i)
                    == v.inode_used(i),
        ensures
            self.spares(by, v, w),
            by.quiet(v, w),
            by.sound(w),
            self.apart_from(by, w),
    {
        by.lemma_valid(v, w);
        self.lemma_leaves_alone(by, v, w);
        assert forall|other: Inode|
            other.sound(v) && self.apart_from(other, v) && by.apart_from(other, v) implies #[trigger] other.quiet(v, w)
            && self.apart_from(other, w) && by.apart_from(other, w) by {
            other.lemma_valid(v, w);
            self.lemma_leaves_alone(other, v, w);
            by.lemma_both_alone(other, v, w);
        }
    }

    /// What leaves the other files alone from `a` to `b` and from `b` to
    /// `c` leaves them alone from `a` to `c`.
    pub proof fn lemma_spares_twice(&self, by: Inode, a: FsView, b: FsView, c: FsView)
        requires
            a.wf(),
            b.wf(),
            self.spares(by, a, b),
            self.spares(by, b, c),
        ensures
            self.spares(by, a, c),
    {
        assert forall|other: Inode|
            other.sound(a) && self.apart_from(other, a) && by.apart_from(other, a) implies #[trigger] other.quiet(a, c)
            && self.apart_from(other, c) && by.apart_from(other, c) by {
            let first = other.quiet(a, b);
            assert(first);
            other.lemma_left_alone(a, b);
            let second = other.quiet(b, c);
            assert(second);
            other.lemma_quiet_twice(a, b, c);
        }
    }

    /// What leaves the other files alone does so whichever of the two is
    /// named first.
    pub proof fn lemma_spares_sym(&self, by: Inode, v: FsView, w: FsView)
        requires
            self.spares(by, v, w),
        ensures
            by.spares(*self, v, w),
    {
        assert forall|other: Inode|
            other.sound(v) && by.apart_from(other, v) && self.apart_from(other, v) implies #[trigger] other.quiet(v, w)
            && by.apart_from(other, w) && self.apart_from(other, w) by {
            let left = other.quiet(v, w);
            assert(left);
        }
    }

    /// Writing the superblock and the descriptors leaves alone every sound
    /// file, and leaves apart what was apart.
    pub proof fn lemma_meta_spares(&self, by: Inode, v: FsView, w: FsView)
        requires
            v.wf(),
            self.sound(v),
            by.sound(v),
            v.same_geometry(w),
            w.super_block == v.super_block,
            w.groups == v.groups,
            forall|x: int|
                1 + crate::efs::desc_block_count(v.groups.len() as int) <= x < v.disk.len() ==> #[trigger] w.disk[x]
                    == v.disk[x],
        ensures
            self.spares(by, v, w),
    {
        self.lemma_meta_written(v, w);
        by.lemma_meta_written(v, w);
        assert forall|other: Inode|
            other.sound(v) && self.apart_from(other, v) && by.apart_from(other, v) implies #[trigger] other.quiet(v, w)
            && self.apart_from(other, w) && by.apart_from(other, w) by {
            other.lemma_meta_written(v, w);
            self.lemma_both_alone(other, v, w);
            by.lemma_both_alone(other, v, w);
        }
    }

    /// From `v` to `w` this directory and the file `child`, which was made
    /// meanwhile, have left alone every sound file that was apart from
    /// the directory: it is as it was, another file than the child, and
    /// apart from both.
    pub open spec fn made_beside(&self, child: Inode, v: FsView, w: FsView) -> bool {
        forall|other: Inode|
            other.sound(v) && self.apart_from(other, v) ==> #[trigger] other.quiet(v, w) && other.inode_id
                != child.inode_id && self.apart_from(other, w) && child.apart_from(other, w)
    }

    /// A file that is made empty, leaving every sound file alone, and then
    /// grows beside this directory, the two leaving the others alone, was
    /// made beside it.
    pub proof fn lemma_made_beside(&self, child: Inode, v: FsView, made: FsView, w: FsView)
        requires
            v.wf(),
            made.wf(),
            self.sound(v),
            forall|other: Inode| other.sound(v) ==> #[trigger] other.quiet(v, made) && other.inode_id != child.inode_id,
            child.sound(made),
            child.inode(made).i_size == 0,
            self.spares(child, made, w),
        ensures
            self.made_beside(child, v, w),
    {
        let mine = self.quiet(v, made);
        assert(mine);
        self.lemma_left_alone(v, made);
        assert forall|other: Inode| other.sound(v) && self.apart_from(other, v) implies #[trigger] other.quiet(v, w)
            && other.inode_id != child.inode_id && self.apart_from(other, w) && child.apart_from(other, w) by {
            let first = other.quiet(v, made);
            assert(first && other.inode_id != child.inode_id);
            other.lemma_left_alone(v, made);
            self.lemma_both_alone(other, v, made);
            lemma_apart_empty(made, child.pos(), other.pos(), blocks_for(other.inode(made).i_size as int));
            let second = other.quiet(made, w);
            assert(second);
            other.lemma_quiet_twice(v, made, w);
        }
    }

    /// A file that was left alone from `a` to `b` and from `b` to `c` was
    /// left alone from `a` to `c`.
    pub proof fn lemma_quiet_twice(&self, a: FsView, b: FsView, c: FsView)
        requires
            a.wf(),
            self.sound(a),
            self.quiet(a, b),
            self.quiet(b, c),
        ensures
            self.quiet(a, c),
    {
        self.lemma_left_alone(a, b);
        lemma_quiet_trans(a, b, c, self.pos(), blocks_for(self.inode(a).i_size as int));
    }

    /// What a sound directory does to itself, and a sound file that is
    /// apart from it does to itself thereafter, leaves alone every sound
    /// file that is apart from both; and the directory is apart from it
    /// afterwards.
    pub proof fn lemma_spared(&self, target: Inode, other: Inode, v0: FsView, v1: FsView, v2: FsView)
        requires
            v0.wf(),
            v1.wf(),
            v2.wf(),
            v0.same_geometry(v1),
            v1.same_geometry(v2),
            self.sound(v0),
            self.sound(v1),
            target.sound(v0),
            other.sound(v0),
            self.apart_from(target, v0),
            self.apart_from(other, v0),
            target.apart_from(other, v0),
            self.kept_to_itself(v0, v1),
            only_file_changed(v0, v1, self.pos()),
            only_blocks_counted(v0, v1),
            target.kept_to_itself(v1, v2),
            only_file_changed(v1, v2, target.pos()),
            forall|i: int|
                1 <= i <= v1.super_block.s_inodes_count && i != target.inode_id ==> #[trigger] v2.inode_used(i)
                    == v1.inode_used(i),
        ensures
            other.quiet(v0, v2),
            self.apart_from(other, v2),
    {
        self.lemma_valid(v0, v1);
        target.lemma_valid(v0, v1);
        other.lemma_valid(v0, v1);
        self.lemma_leaves_alone(other, v0, v1);
        self.lemma_leaves_alone(target, v0, v1);
        target.lemma_both_alone(other, v0, v1);
        lemma_apart_sym(
            v1,
            self.pos(),
            blocks_for(self.inode(v1).i_size as int),
            target.pos(),
            blocks_for(target.inode(v1).i_size as int),
        );
        target.lemma_leaves_alone(other, v1, v2);
        target.lemma_leaves_alone(*self, v1, v2);
        other.lemma_quiet_twice(v0, v1, v2);
        self.lemma_both_alone(other, v1, v2);
    }

    /// Takes the entry `name`, which is not the first, out of this
    /// directory: the entry before it is made to reach over it. The file
    /// behind the entry loses a link. Fails with `NotFound` where no entry
    /// has the name.
    #[verifier::rlimit(80)]
    pub fn unlink_single<D: BlockDevice>(&self, fs: &mut Ext2FileSystem<D>, name: &[u8]) -> (r: Result<
        (),
        Ext2Error,
    >)
        requires
            old(fs).wf(),
            self.valid(old(fs)@),
        ensures
            final(fs).wf(),
            old(fs)@.same_geometry(final(fs)@),
            self.valid(final(fs)@),
            final(fs)@.time == old(fs)@.time,
            self.kind(old(fs)@) != EXT2_FT_DIR ==> (r matches Err(e) && e == Ext2Error::NotADirectory),
            self.kind(old(fs)@) == EXT2_FT_DIR && (name@ == dot() || name@ == dot_dot()) ==> (r matches Err(e) && e == Ext2Error::InvalidData),
            self.kind(old(fs)@) == EXT2_FT_DIR && !(name@ == dot() || name@ == dot_dot()) ==> match self.found(
                old(fs)@,
                name@,
            ) {
                Ok(Some(f)) => true,
                Ok(None) => r matches Err(e) && e == Ext2Error::NotFound,
                Err(e) => r matches Err(e2) && e2 == e,
            },
            r matches Err(e) && e != Ext2Error::Corruption ==> final(fs)@ == old(fs)@,
            self.can_unlink(old(fs)@, name@) ==> r is Ok && self.unlinked(old(fs)@, final(fs)@, name@),
    {
        let ghost v0 = fs@;
        if self.file_type(fs) != EXT2_FT_DIR {
            return Err(Ext2Error::NotADirectory);
        }
        if is_dot_name(name) {
            return Err(Ext2Error::InvalidData);
        }
        let inode = self.read_disk_inode(fs);
        if !inode.is_dir() {
            return Err(Ext2Error::NotADirectory);
        }
        proof {
            if self.can_unlink(v0, name@) {
                self.lemma_content(v0);
            }
        }
        let content = match self.read_all(fs) {
            Ok(c) => c,
            Err(e) => {
                return Err(e);
            },
        };
        let f = match find_entry(content.as_slice(), name) {
            Ok(Some(f)) => f,
            Ok(None) => {
                return Err(Ext2Error::NotFound);
            },
            Err(e) => {
                return Err(e);
            },
        };
        proof {
            lemma_found_behind(content@, name@, 0, 0, 0);
            if self.can_unlink(v0, name@) {
                lemma_unlinked(content@, name@, 0, 0, 0);
            }
        }
        if f.pos == 0 {
            return Err(Ext2Error::Corruption);
        }
        if f.prev_offset > content.len() || content.len() - f.prev_offset < 8 {
            return Err(Ext2Error::Corruption);
        }
        let before = get_u16(content.as_slice(), f.prev_offset + 4);
        proof {
            let head = content@.subrange(f.prev_offset as int, f.prev_offset + 8);
            assert(head.subrange(4, 6) =~= content@.subrange(f.prev_offset + 4, f.prev_offset + 6));
            assert(before == entry_head(content@, f.prev_offset as int).rec_len);
        }
        if before > u16::MAX - f.head.rec_len {
            return Err(Ext2Error::Corruption);
        }
        let target = match Inode::follow(fs, &f) {
            Ok(t) => t,
            Err(e) => {
                return Err(e);
            },
        };
        proof {
            self.lemma_valid(v0, v0);
            target.lemma_valid(v0, v0);
            if self.can_unlink(v0, name@) {
                assert(target == Self::target_of(v0, f.head));
            }
        }
        let reach = vstd::bytes::u16_to_le_bytes(before + f.head.rec_len);
        match self.write_at(fs, f.prev_offset + 4, reach.as_slice()) {
            Ok(_) => {},
            Err(e) => {
                return Err(Ext2Error::Corruption);
            },
        }
        let ghost v1 = fs@;
        proof {
            target.lemma_valid(v0, v1);
            if self.can_unlink(v0, name@) {
                self.lemma_leaves_alone(target, v0, v1);
                self.lemma_reached(v0, v1, f.prev_offset as int, f.head.rec_len, reach@);
                let nb = blocks_for(self.inode(v1).i_size as int);
                lemma_apart_sym(
                    v1,
                    self.pos(),
                    nb,
                    target.pos(),
                    blocks_for(target.inode(v1).i_size as int),
                );
            }
        }
        match target.decrease_nlink(fs, 1) {
            Ok(_) => {
                proof {
                    let v2 = fs@;
                    self.lemma_valid(v1, v2);
                    if self.can_unlink(v0, name@) {
                        assert forall|other: Inode|
                            other.sound(v0) && self.apart_from(other, v0) && target.apart_from(
                                other,
                                v0,
                            ) implies #[trigger] other.quiet(v0, v2) && self.apart_from(other, v2) by {
                            self.lemma_spared(target, other, v0, v1, v2);
                        }
                        assert(self.spared_all(target, v0, v2));
                        if target.inode(v0).i_links_count > 1 {
                            target.lemma_valid(v1, v1);
                            self.lemma_slot_written(
                                target,
                                v1,
                                target.block_offset as int,
                                target.inode(v2).store(
                                    v1.disk[target.block_id as int].subrange(
                                        target.block_offset as int,
                                        target.block_offset + 128,
                                    ),
                                ),
                            );
                            target.inode(v2).lemma_store_parse(
                                v1.disk[target.block_id as int].subrange(
                                    target.block_offset as int,
                                    target.block_offset + 128,
                                ),
                            );
                            self.lemma_both_alone_after(target, v1, v2);
                        } else {
                            target.lemma_leaves_alone(*self, v1, v2);
                        }
                    }
                }
                Ok(())
            },
            Err(e) => {
                proof {
                    self.lemma_valid(v1, fs@);
                }
                Err(Ext2Error::Corruption)
            },
        }
    }

    /// Writing the two bytes that make the entry at byte `prev` reach
    /// `more` bytes further into a sound directory makes its content that
    /// with the entry reaching so.
    pub proof fn lemma_reached(&self, v: FsView, w: FsView, prev: int, more: u16, two: Seq<u8>)
        requires
            self.sound(v),
            0 <= prev,
            prev + 8 <= self.inode(v).i_size,
            two == vstd::bytes::spec_u16_to_le_bytes((entry_head(self.bytes(v), prev).rec_len + more) as u16),
            self.wrote(v, w, prev + 4, two),
        ensures
            self.bytes(w) == reaching(self.bytes(v), prev, more),
            self.inode(w).i_size == self.inode(v).i_size,
    {
        vstd::bytes::lemma_auto_spec_u16_to_from_le_bytes();
        let a = self.bytes(w);
        let b = reaching(self.bytes(v), prev, more);
        assert(a.len() == b.len());
        assert forall|i: int| 0 <= i < a.len() implies a[i] == b[i] by {
            if prev + 4 <= i < prev + 6 {
                assert(a.subrange(prev + 4, prev + 6)[i - prev - 4] == a[i]);
            } else {
                assert(self.bytes(w)[i] == self.bytes(v)[i]);
            }
        }
        assert(a =~= b);
    }

    /// Two sound files that are apart, of which the one was left alone and
    /// the other kept its ways and bytes, are apart as before.
    pub proof fn lemma_both_alone_after(&self, other: Inode, v: FsView, w: FsView)
        requires
            v.wf(),
            self.sound(v),
            other.sound(v),
            self.apart_from(other, v),
            self.quiet(v, w),
            other.relinked(v, w, other.inode(w).i_links_count as int),
            w == v.inode_written(other.block_id as int, other.block_offset as int, other.inode(w)),
        ensures
            self.apart_from(other, w),
    {
        let nb = blocks_for(other.inode(v).i_size as int);
        other.lemma_valid(v, v);
        crate::sound::lemma_sound_place(v, other.pos(), nb);
        lemma_inode_written(v, other.pos(), nb, other.block_id as int, other.block_offset as int, other.inode(w));
        self.lemma_left_alone(v, w);
        lemma_quiet(v, w, self.pos(), blocks_for(self.inode(v).i_size as int));
        crate::sound::lemma_apart_ways(
            v,
            w,
            self.pos(),
            blocks_for(self.inode(v).i_size as int),
            other.pos(),
            nb,
        );
    }

    /// The directory that the entry `..` of this directory leads to in
    /// `v`.
    pub open spec fn parent_of(&self, v: FsView) -> Inode {
        Self::target_of(v, lookup(self.bytes(v), dot_dot())->head)
    }

    /// This is a sound directory that holds nothing but its entries `.`
    /// and `..`, of which the second leads to a sound file that is apart
    /// from it; and both count a link more than the one that is to go.
    pub open spec fn is_empty_dir(&self, v: FsView) -> bool {
        &&& self.dir_sound(v)
        &&& self.kind(v) == EXT2_FT_DIR
        &&& names(self.bytes(v)) == Some(seq![dot(), dot_dot()])
        &&& lookup(self.bytes(v), dot_dot()) matches Lookup::Found { head, .. } && 1 <= head.inode
            <= v.super_block.s_inodes_count
        &&& self.parent_of(v).sound(v)
        &&& self.apart_from(self.parent_of(v), v)
        &&& self.inode(v).i_links_count >= 2
        &&& self.parent_of(v).inode(v).i_links_count >= 2
    }

    /// `w` is `v` after the links of the entries `.` and `..` of this
    /// empty directory were taken back: the directory and its parent count
    /// a link less each, and are as they were otherwise.
    pub open spec fn dots_taken(&self, v: FsView, w: FsView) -> bool {
        let parent = self.parent_of(v);
        &&& self.sound(w)
        &&& self.bytes(w) == self.bytes(v)
        &&& self.inode(w) == (DiskInode {
            i_links_count: (self.inode(v).i_links_count - 1) as u16,
            ..self.inode(v)
        })
        &&& parent.sound(w)
        &&& parent.bytes(w) == parent.bytes(v)
        &&& parent.inode(w) == (DiskInode {
            i_links_count: (parent.inode(v).i_links_count - 1) as u16,
            ..parent.inode(v)
        })
        &&& self.apart_from(parent, w)
        &&& w.super_block == v.super_block
        &&& w.groups == v.groups
        &&& w.time == v.time
        &&& forall|i: int| 1 <= i <= v.super_block.s_inodes_count ==> #[trigger] w.inode_used(i) == v.inode_used(i)
        &&& forall|other: Inode|
            other.sound(v) && self.apart_from(other, v) && parent.apart_from(other, v) ==> #[trigger] other.quiet(
                v,
                w,
            ) && self.apart_from(other, w) && parent.apart_from(other, w)
    }

    /// Taking a link from a sound directory and then one from the sound
    /// directory above it leaves alone every sound file that is apart from
    /// both, and leaves both apart from it.
    pub proof fn lemma_dots_spare(&self, up: Inode, other: Inode, c: FsView, d: FsView, w: FsView)
        requires
            c.wf(),
            d.wf(),
            self.sound(c),
            up.sound(c),
            other.sound(c),
            self.apart_from(up, c),
            self.apart_from(other, c),
            up.apart_from(other, c),
            self.relinked(c, d, self.inode(d).i_links_count as int),
            d == c.inode_written(self.block_id as int, self.block_offset as int, self.inode(d)),
            up.relinked(d, w, up.inode(w).i_links_count as int),
            w == d.inode_written(up.block_id as int, up.block_offset as int, up.inode(w)),
        ensures
            other.quiet(c, w),
            self.apart_from(other, w),
            up.apart_from(other, w),
    {
        self.lemma_relinked_spares(other, c, d);
        self.lemma_relinked_spares(up, c, d);
        up.lemma_both_alone(other, c, d);
        up.lemma_relinked_spares(other, d, w);
        lemma_apart_sym(
            d,
            self.pos(),
            blocks_for(self.inode(d).i_size as int),
            up.pos(),
            blocks_for(up.inode(d).i_size as int),
        );
        up.lemma_relinked_spares(*self, d, w);
        self.lemma_both_alone(other, d, w);
        other.lemma_quiet_twice(c, d, w);
    }

    /// The file that the entry `name` of this directory leads to in `v`.
    pub open spec fn child_of(&self, v: FsView, name: Seq<u8>) -> Inode {
        Self::target_of(v, lookup(self.bytes(v), name)->head)
    }

    /// The entry `name` of this directory leads in `cur` where it led in
    /// `v`.
    pub open spec fn leads_as(&self, v: FsView, cur: FsView, name: Seq<u8>) -> bool {
        let then = lookup(self.bytes(v), name);
        let now = lookup(self.bytes(cur), name);
        &&& then is Found
        &&& now is Found
        &&& now->head.inode == then->head.inode
        &&& now->head.file_type == then->head.file_type
    }

    /// Taking the entry `name` out of this directory leaves an entry with
    /// another name leading where it led.
    pub proof fn lemma_stays(&self, cur: FsView, next: FsView, name: Seq<u8>, other: Seq<u8>)
        requires
            self.can_unlink(cur, name),
            self.unlinked(cur, next, name),
            lookup(self.bytes(cur), other) is Found,
            other != name,
        ensures
            self.leads_as(cur, next, other),
    {
        let content = self.bytes(cur);
        lemma_unlinked(content, name, 0, 0, 0);
        lemma_others_stay(content, name, other, 0, 0, 0);
        lemma_place(content, other, 0, 0, 0);
        lemma_place(self.bytes(next), other, 0, 0, 0);
    }

    /// Empties this directory, and whatever lies below it, before it is
    /// unlinked itself: every entry but `.` and `..` is unlinked, then the
    /// link of `.` to the directory and that of `..` to its parent are
    /// taken back. Anything but a directory is left as it is. `fuel` bounds
    /// how deep the walk goes; `s` names the inodes among which the
    /// contract takes the file system to be tidy.
    #[verifier::rlimit(80)]
    pub(crate) fn unlink_below<D: BlockDevice>(
        &self,
        fs: &mut Ext2FileSystem<D>,
        fuel: u32,
        Ghost(s): Ghost<Set<int>>,
    ) -> (r: Result<(), Ext2Error>)
        requires
            old(fs).wf(),
            self.valid(old(fs)@),
        ensures
            final(fs).wf(),
            old(fs)@.same_geometry(final(fs)@),
            self.valid(final(fs)@),
            final(fs)@.time == old(fs)@.time,
            self.kind(old(fs)@) != EXT2_FT_DIR ==> r is Ok && final(fs)@ == old(fs)@,
            r matches Err(e) ==> e == Ext2Error::Corruption,
            self.is_empty_dir(old(fs)@) && fuel > 0 ==> r is Ok && self.dots_taken(old(fs)@, final(fs)@),
            self.can_fell(old(fs)@, fuel as nat, s) ==> r is Ok && self.felled(old(fs)@, final(fs)@, fuel as nat, s),
        decreases fuel,
    {
        if self.file_type(fs) != EXT2_FT_DIR {
            return Ok(());
        }
        if fuel == 0 {
            return Err(Ext2Error::Corruption);
        }
        proof {
            if self.is_empty_dir(fs@) {
                self.lemma_content(fs@);
            }
            if self.can_fell(fs@, fuel as nat, s) {
                self.lemma_fell_members(fs@, fuel as nat, s);
                self.lemma_content(fs@);
                self.lemma_felling_start(fs@, fuel as nat, s);
            }
        }
        let all = match self.ls_disk(fs) {
            Ok(a) => a,
            Err(e) => {
                return Err(Ext2Error::Corruption);
            },
        };
        let ghost v0 = fs@;
        let mut i: usize = 0;
        while i < all.len()
            invariant
                fs.wf(),
                v0 == old(fs)@,
                v0.wf(),
                v0.same_geometry(fs@),
                self.valid(v0),
                self.valid(fs@),
                self.kind(v0) == EXT2_FT_DIR,
                fs@.time == v0.time,
                i <= all@.len(),
                fuel > 0,
                self.is_empty_dir(v0) ==> fs@ == v0 && views(all@) == seq![dot(), dot_dot()],
                self.can_fell(v0, fuel as nat, s) ==> views(all@) == self.entries(v0) && self.felling(
                    v0,
                    fs@,
                    if i < 2 {
                        2
                    } else {
                        i as int
                    },
                    fuel as nat,
                    s,
                ),
            decreases all@.len() - i,
        {
            let name = all[i].as_slice();
            proof {
                if self.is_empty_dir(v0) {
                    assert(views(all@)[i as int] == all@[i as int]@);
                    assert(seq![dot(), dot_dot()][0] == dot());
                    assert(seq![dot(), dot_dot()][1] == dot_dot());
                }
                if self.can_fell(v0, fuel as nat, s) {
                    assert(views(all@)[i as int] == all@[i as int]@);
                    if i >= 2 {
                        self.lemma_felling_kid(v0, fs@, i as int, fuel as nat, s);
                        assert(self.sound(fs@));
                        self.lemma_content(fs@);
                    }
                }
            }
            if !is_dot_name(name) {
                let ghost a = fs@;
                proof {
                    assert(a.wf());
                }
                let child = match self.find_bytes(fs, name) {
                    Ok(c) => c,
                    Err(e) => {
                        return Err(Ext2Error::Corruption);
                    },
                };
                match child.unlink_below(fs, fuel - 1, Ghost(s)) {
                    Ok(_) => {},
                    Err(e) => {
                        proof {
                            v0.lemma_same_geometry(a);
                            a.lemma_same_geometry(fs@);
                            self.lemma_valid(a, fs@);
                        }
                        return Err(Ext2Error::Corruption);
                    },
                }
                let ghost b = fs@;
                proof {
                    v0.lemma_same_geometry(a);
                    a.lemma_same_geometry(b);
                    self.lemma_valid(a, b);
                    assert(b.wf());
                    if self.can_fell(v0, fuel as nat, s) {
                        assert(child.inode_id == self.child_of(a, name@).inode_id);
                        assert(child == self.kid(v0, i as int));
                        assert(child.cleared(a, b, (fuel - 1) as nat, s));
                        self.lemma_felling_can(v0, a, b, i as int, fuel as nat, s);
                    }
                }
                match self.unlink_single(fs, name) {
                    Ok(_) => {},
                    Err(e) => {
                        proof {
                            b.lemma_same_geometry(fs@);
                        }
                        return Err(Ext2Error::Corruption);
                    },
                }
                proof {
                    b.lemma_same_geometry(fs@);
                    if self.can_fell(v0, fuel as nat, s) {
                        self.lemma_felling_step(v0, a, b, fs@, i as int, fuel as nat, s);
                    }
                }
            }
            i += 1;
        }
        let ghost c = fs@;
        proof {
            v0.lemma_same_geometry(c);
            assert(c.wf());
            if self.can_fell(v0, fuel as nat, s) {
                assert(views(all@).len() == all@.len());
                self.lemma_felling_end(v0, c, fuel as nat, s);
            }
        }
        match self.decrease_nlink(fs, 1) {
            Ok(_) => {},
            Err(e) => {
                proof {
                    v0.lemma_same_geometry(c);
                    c.lemma_same_geometry(fs@);
                }
                return Err(Ext2Error::Corruption);
            },
        }
        let ghost d = fs@;
        proof {
            v0.lemma_same_geometry(c);
            c.lemma_same_geometry(d);
            if self.is_empty_dir(c) {
                self.lemma_dot_taken(c, d);
                self.lemma_content(d);
            }
        }
        let dot_dot: [u8; 2] = [46u8, 46u8];
        proof {
            assert(dot_dot@ =~= crate::vfs::dot_dot());
        }
        let parent = match self.find_bytes(fs, dot_dot.as_slice()) {
            Ok(p) => p,
            Err(e) => {
                return Err(Ext2Error::Corruption);
            },
        };
        proof {
            if self.is_empty_dir(c) {
                assert(parent == self.parent_of(c));
            }
        }
        match parent.decrease_nlink(fs, 1) {
            Ok(_) => {
                proof {
                    d.lemma_same_geometry(fs@);
                    self.lemma_valid(d, fs@);
                    if self.is_empty_dir(c) {
                        self.lemma_dots_taken(c, d, fs@);
                        if self.can_fell(v0, fuel as nat, s) {
                            self.lemma_felled(v0, c, fs@, fuel as nat, s);
                        }
                    }
                }
                Ok(())
            },
            Err(e) => {
                proof {
                    d.lemma_same_geometry(fs@);
                    self.lemma_valid(d, fs@);
                }
                Err(Ext2Error::Corruption)
            },
        }
    }

    /// Taking the link of the entry `.` from an empty directory leaves
    /// the directory and the one above it sound and apart, and the second
    /// as it was.
    pub proof fn lemma_dot_taken(&self, c: FsView, d: FsView)
        requires
            c.wf(),
            self.is_empty_dir(c),
            self.relinked(c, d, self.inode(c).i_links_count - 1),
            d == c.inode_written(self.block_id as int, self.block_offset as int, self.inode(d)),
        ensures
            self.sound(d),
            self.bytes(d) == self.bytes(c),
            self.parent_of(d) == self.parent_of(c),
            self.parent_of(c).sound(d),
            self.parent_of(c).inode(d) == self.parent_of(c).inode(c),
            self.parent_of(c).bytes(d) == self.parent_of(c).bytes(c),
            self.apart_from(self.parent_of(c), d),
    {
        let up = self.parent_of(c);
        self.lemma_relinked_spares(up, c, d);
    }

    /// Taking the link of the entry `.` from an empty directory and then
    /// that of its entry `..` from the directory above it takes both back.
    pub proof fn lemma_dots_taken(&self, c: FsView, d: FsView, w: FsView)
        requires
            c.wf(),
            d.wf(),
            self.is_empty_dir(c),
            self.relinked(c, d, self.inode(c).i_links_count - 1),
            d == c.inode_written(self.block_id as int, self.block_offset as int, self.inode(d)),
            self.parent_of(c).relinked(d, w, self.parent_of(c).inode(c).i_links_count - 1),
            w == d.inode_written(
                self.parent_of(c).block_id as int,
                self.parent_of(c).block_offset as int,
                self.parent_of(c).inode(w),
            ),
        ensures
            self.dots_taken(c, w),
    {
        let up = self.parent_of(c);
        self.lemma_dot_taken(c, d);
        lemma_apart_sym(
            d,
            self.pos(),
            blocks_for(self.inode(d).i_size as int),
            up.pos(),
            blocks_for(up.inode(d).i_size as int),
        );
        up.lemma_relinked_spares(*self, d, w);
        lemma_apart_sym(
            w,
            up.pos(),
            blocks_for(up.inode(w).i_size as int),
            self.pos(),
            blocks_for(self.inode(w).i_size as int),
        );
        assert forall|other: Inode|
            other.sound(c) && self.apart_from(other, c) && up.apart_from(other, c) implies #[trigger] other.quiet(
                c,
                w,
            ) && self.apart_from(other, w) && up.apart_from(other, w) by {
            self.lemma_dots_spare(up, other, c, d, w);
        }
        assert forall|i: int| 1 <= i <= c.super_block.s_inodes_count implies #[trigger] w.inode_used(i)
            == c.inode_used(i) by {
            assert(d.inode_used(i) == c.inode_used(i));
        }
    }

    /// The entry `name` of this sound directory can be taken out and leads
    /// to an empty directory, whose entry `..` leads back here.
    pub open spec fn can_remove_dir(&self, v: FsView, name: Seq<u8>) -> bool {
        let child = Self::target_of(v, lookup(self.bytes(v), name)->head);
        &&& self.can_unlink(v, name)
        &&& child.is_empty_dir(v)
        &&& child.parent_of(v).inode_id == self.inode_id
    }

    /// `w` is `v` after the entry `name`, which led to an empty directory,
    /// was taken out of this sound directory: the names in the directory
    /// are those before without the entry's; the directory is sound,
    /// stamped, and counts a link less, that of the entry `..` that led
    /// here; and the directory that the entry led to has lost two links,
    /// and, with its last link, its blocks and its inode.
    pub open spec fn dir_removed(&self, v: FsView, w: FsView, name: Seq<u8>) -> bool {
        let found = lookup(self.bytes(v), name);
        let target = Self::target_of(v, found->head);
        let links = target.inode(v).i_links_count;
        &&& self.dir_sound(w)
        &&& self.bytes(w) == reaching(self.bytes(v), found->prev_offset, found->head.rec_len)
        &&& names(self.bytes(w)) == Some(names_skip(self.bytes(v), 0, found->offset))
        &&& self.inode(w) == (DiskInode {
            i_links_count: (self.inode(v).i_links_count - 1) as u16,
            i_atime: v.time,
            i_mtime: v.time,
            ..self.inode(v)
        })
        &&& links > 2 ==> {
            &&& target.sound(w)
            &&& target.bytes(w) == target.bytes(v)
            &&& target.inode(w) == (DiskInode { i_links_count: (links - 2) as u16, ..target.inode(v) })
            &&& self.apart_from(target, w)
            &&& w.super_block.s_free_inodes_count == v.super_block.s_free_inodes_count
            &&& w.super_block.s_free_blocks_count == v.super_block.s_free_blocks_count
        }
        &&& links == 2 ==> {
            &&& !w.inode_used(target.inode_id as int)
            &&& w.super_block.s_free_inodes_count == v.super_block.s_free_inodes_count + 1
            &&& w.super_block.s_free_blocks_count == v.super_block.s_free_blocks_count + blocks_between(
                0,
                blocks_for(target.inode(v).i_size as int),
            )
        }
    }

    /// Once the links of the entries `.` and `..` of an empty directory are
    /// taken back, its entry can be taken out of the directory above it as
    /// that of any file.
    pub proof fn lemma_dir_emptied(&self, v: FsView, mid: FsView, name: Seq<u8>)
        requires
            v.wf(),
            self.valid(v),
            self.can_remove_dir(v, name),
            Self::target_of(v, lookup(self.bytes(v), name)->head).dots_taken(v, mid),
        ensures
            self.can_unlink(mid, name),
            self.bytes(mid) == self.bytes(v),
            self.inode(mid) == (DiskInode {
                i_links_count: (self.inode(v).i_links_count - 1) as u16,
                ..self.inode(v)
            }),
            Self::target_of(mid, lookup(self.bytes(v), name)->head) == Self::target_of(
                v,
                lookup(self.bytes(v), name)->head,
            ),
    {
        let head = lookup(self.bytes(v), name)->head;
        let child = Self::target_of(v, head);
        let up = child.parent_of(v);
        v.lemma_inode_pos(self.inode_id as int);
        assert(up.pos() == self.pos());
        assert(up.block_id == self.block_id && up.block_offset == self.block_offset);
        assert(self.inode(mid) == up.inode(mid));
        assert(self.bytes(mid) == up.bytes(mid));
        assert(self.sound(mid));
        assert(child == Self::target_of(mid, head));
        lemma_apart_sym(
            mid,
            child.pos(),
            blocks_for(child.inode(mid).i_size as int),
            up.pos(),
            blocks_for(up.inode(mid).i_size as int),
        );
    }

    /// Taking back the links of `.` and `..` and then taking the entry out
    /// is the removal of the empty directory.
    pub proof fn lemma_dir_removed(&self, v: FsView, mid: FsView, w: FsView, name: Seq<u8>)
        requires
            v.wf(),
            self.valid(v),
            self.can_remove_dir(v, name),
            Self::target_of(v, lookup(self.bytes(v), name)->head).dots_taken(v, mid),
            self.unlinked(mid, w, name),
        ensures
            self.dir_removed(v, w, name),
    {
        self.lemma_dir_emptied(v, mid, name);
    }

    /// Takes the entry `name` out of this directory, with everything below
    /// it where it is a directory. Fails with `NotADirectory` where this is
    /// no directory, with `InvalidData` for the names `.` and `..`, and
    /// with `NotFound` where no entry has the name. The entry of a file,
    /// of an empty directory or of a whole tree is taken out without
    /// fail: the file loses a link, and with its last link its blocks and
    /// its inode; of a tree every inode is given back. An entry is taken
    /// out by making the one before it reach over it, which it can for
    /// 65535 bytes: where it cannot, the call fails with `Corruption`.
    #[verifier::rlimit(100)]
    pub fn unlink<D: BlockDevice>(&self, fs: &mut Ext2FileSystem<D>, name: &str) -> (r: Result<(), Ext2Error>)
        requires
            old(fs).wf(),
            self.valid(old(fs)@),
        ensures
            final(fs).wf(),
            old(fs)@.same_geometry(final(fs)@),
            self.valid(final(fs)@),
            final(fs)@.time == old(fs)@.time,
            self.kind(old(fs)@) != EXT2_FT_DIR ==> (r matches Err(e) && e == Ext2Error::NotADirectory),
            self.kind(old(fs)@) == EXT2_FT_DIR && (name.spec_bytes() == dot() || name.spec_bytes() == dot_dot())
                ==> (r matches Err(e) && e == Ext2Error::InvalidData),
            self.kind(old(fs)@) == EXT2_FT_DIR && !(name.spec_bytes() == dot() || name.spec_bytes() == dot_dot())
                ==> match self.found(old(fs)@, name.spec_bytes()) {
                Ok(Some(f)) => true,
                Ok(None) => r matches Err(e) && e == Ext2Error::NotFound,
                Err(e) => r matches Err(e2) && e2 == e,
            },
            r matches Err(e) && e != Ext2Error::Corruption ==> final(fs)@ == old(fs)@,
            r is Ok ==> final(fs)@.meta_on_disk(),
            self.can_unlink(old(fs)@, name.spec_bytes()) && Self::target_of(
                old(fs)@,
                lookup(self.bytes(old(fs)@), name.spec_bytes())->head,
            ).kind(old(fs)@) != EXT2_FT_DIR ==> r is Ok && self.unlinked(old(fs)@, final(fs)@, name.spec_bytes()),
            self.can_remove_dir(old(fs)@, name.spec_bytes()) ==> r is Ok && self.dir_removed(
                old(fs)@,
                final(fs)@,
                name.spec_bytes(),
            ),
            self.can_remove_tree(old(fs)@, name.spec_bytes()) ==> r is Ok && self.tree_removed(
                old(fs)@,
                final(fs)@,
                name.spec_bytes(),
            ),
    {
        let ghost v0 = fs@;
        if self.file_type(fs) != EXT2_FT_DIR {
            return Err(Ext2Error::NotADirectory);
        }
        let name_bytes = name.as_bytes();
        if is_dot_name(name_bytes) {
            return Err(Ext2Error::InvalidData);
        }
        proof {
            if self.can_unlink(v0, name_bytes@) {
                self.lemma_content(v0);
            }
        }
        let child = match self.find_bytes(fs, name_bytes) {
            Ok(c) => c,
            Err(e) => {
                return Err(e);
            },
        };
        let fuel = fs.super_block.s_inodes_count;
        match child.unlink_below(fs, fuel, Ghost(self.tree_set(fs@, name_bytes@))) {
            Ok(_) => {},
            Err(e) => {
                proof {
                    self.lemma_valid(old(fs)@, fs@);
                }
                return Err(e);
            },
        }
        let ghost mid = fs@;
        proof {
            self.lemma_valid(old(fs)@, mid);
            old(fs)@.lemma_same_geometry(mid);
            if self.can_remove_dir(v0, name_bytes@) {
                assert(child == Self::target_of(v0, lookup(self.bytes(v0), name_bytes@)->head));
                self.lemma_dir_emptied(v0, mid, name_bytes@);
            }
            if self.can_remove_tree(v0, name_bytes@) {
                assert(child == self.child_of(v0, name_bytes@));
                self.lemma_tree_can(v0, mid, name_bytes@);
            }
        }
        match self.unlink_single(fs, name_bytes) {
            Ok(_) => {},
            Err(e) => {
                proof {
                    mid.lemma_same_geometry(fs@);
                }
                return Err(Ext2Error::Corruption);
            },
        }
        let ghost last = fs@;
        fs.write_meta();
        proof {
            mid.lemma_same_geometry(last);
            old(fs)@.lemma_same_geometry(last);
            self.lemma_valid(last, fs@);
            if self.can_unlink(v0, name_bytes@) && child.kind(v0) != EXT2_FT_DIR {
                assert(child == Self::target_of(v0, lookup(self.bytes(v0), name_bytes@)->head));
                self.lemma_unlinked_written(v0, last, fs@, name_bytes@);
            }
            if self.can_remove_dir(v0, name_bytes@) {
                self.lemma_unlinked_written(mid, last, fs@, name_bytes@);
                self.lemma_dir_removed(v0, mid, fs@, name_bytes@);
            }
            if self.can_remove_tree(v0, name_bytes@) {
                self.lemma_unlinked_written(mid, last, fs@, name_bytes@);
                self.lemma_tree_removed(v0, mid, fs@, name_bytes@);
            }
        }
        Ok(())
    }

    /// Writing the superblock and the descriptors after an entry was taken
    /// out of a directory leaves what the taking has made.
    pub proof fn lemma_unlinked_written(&self, v: FsView, last: FsView, w: FsView, name: Seq<u8>)
        requires
            v.wf(),
            last.wf(),
            self.can_unlink(v, name),
            self.unlinked(v, last, name),
            v.same_geometry(last),
            last.same_geometry(w),
            w.super_block == last.super_block,
            w.groups == last.groups,
            w.time == last.time,
            forall|x: int|
                1 + crate::efs::desc_block_count(last.groups.len() as int) <= x < last.disk.len() ==> #[trigger] w.disk[x]
                    == last.disk[x],
        ensures
            self.unlinked(v, w, name),
    {
        let target = Self::target_of(v, lookup(self.bytes(v), name)->head);
        self.lemma_meta_written(last, w);
        self.lemma_spared_written(target, v, last, w);
        if target.inode(v).i_links_count > 1 {
            target.lemma_meta_written(last, w);
            self.lemma_both_alone(target, last, w);
        } else {
            target.lemma_valid(v, last);
            last.lemma_inode_mark_kept(w, target.inode_id as int);
        }
    }

    /// Writing the superblock and the descriptors leaves alone what was
    /// left alone before.
    pub proof fn lemma_spared_written(&self, target: Inode, v: FsView, last: FsView, w: FsView)
        requires
            v.wf(),
            last.wf(),
            self.sound(last),
            self.spared_all(target, v, last),
            v.same_geometry(last),
            last.same_geometry(w),
            w.super_block == last.super_block,
            w.groups == last.groups,
            forall|x: int|
                1 + crate::efs::desc_block_count(last.groups.len() as int) <= x < last.disk.len() ==> #[trigger] w.disk[x]
                    == last.disk[x],
        ensures
            self.spared_all(target, v, w),
    {
        assert forall|i: int|
            1 <= i <= v.super_block.s_inodes_count && i != target.inode_id implies #[trigger] w.inode_used(i)
            == v.inode_used(i) by {
            last.lemma_inode_mark_kept(w, i);
            assert(last.inode_used(i) == v.inode_used(i));
        }
        assert forall|other: Inode|
            other.sound(v) && self.apart_from(other, v) && target.apart_from(other, v) implies #[trigger] other.quiet(
                v,
                w,
            ) && self.apart_from(other, w) by {
            let left = other.quiet(v, last);
            assert(left && self.apart_from(other, last));
            other.lemma_left_alone(v, last);
            other.lemma_meta_written(last, w);
            self.lemma_meta_written(last, w);
            other.lemma_quiet_twice(v, last, w);
            self.lemma_both_alone(other, last, w);
        }
    }

    /// Whether the blocks are free that an entry for a name of `name_len`
    /// bytes takes when it is appended to this directory, and `extra` more.
    pub fn room_for_entry<D: BlockDevice>(&self, fs: &mut Ext2FileSystem<D>, name_len: usize, extra: usize) -> (ok:
        bool)
        requires
            old(fs).wf(),
            self.valid(old(fs)@),
            extra <= 1,
        ensures
            final(fs).wf(),
            final(fs)@ == old(fs)@,
            ok == self.has_room(old(fs)@, name_len as int, extra as int),
    {
        let dir_inode = self.read_disk_inode(fs);
        if dir_inode.i_size > u32::MAX - 263 {
            return false;
        }
        let entry_len = 8 + if name_len <= 255 {
            name_len
        } else {
            255
        };
        let from = blocks_of(dir_inode.i_size);
        let to = blocks_of(dir_inode.i_size + entry_len as u32);
        proof {
            lemma_blocks_between_bound(from as int, to as int);
        }
        let need = blocks_needed(from, to) + extra;
        (fs.super_block.s_free_blocks_count as usize) >= need
    }

    /// Whether this directory can take an entry for a name of `name_len`
    /// bytes in `v`, with `extra` blocks to spare.
    pub open spec fn has_room(&self, v: FsView, name_len: int, extra: int) -> bool {
        let size = self.inode(v).i_size as int;
        let entry_len = 8 + if name_len <= 255 {
            name_len
        } else {
            255
        };
        &&& size <= u32::MAX - 263
        &&& v.super_block.s_free_blocks_count >= blocks_between(blocks_for(size), blocks_for(size + entry_len))
            + extra
    }

    /// Makes the inode `id`, which was just taken, that of an empty file of
    /// the kind `kind`: no block pointers, no content, one link, the
    /// default permissions, stamped with the time. Returns a handle on it.
    /// Every sound file with another inode is left alone.
    pub fn init<D: BlockDevice>(fs: &mut Ext2FileSystem<D>, id: u32, kind: u16) -> (inode: Inode)
        requires
            old(fs).wf(),
            1 <= id <= old(fs)@.super_block.s_inodes_count,
        ensures
            final(fs).wf(),
            old(fs)@.same_geometry(final(fs)@),
            final(fs)@.super_block == old(fs)@.super_block,
            final(fs)@.groups == old(fs)@.groups,
            final(fs)@.time == old(fs)@.time,
            inode.valid(final(fs)@),
            inode.inode_id == id,
            inode.file_type == file_code_of(kind),
            inode.inode(final(fs)@) == (DiskInode {
                i_atime: old(fs)@.time,
                i_ctime: old(fs)@.time,
                ..DiskInode::fresh(DEFAULT_IMODE | kind, 0, 0)
            }),
            old(fs)@.inode_used(id as int) ==> inode.sound(final(fs)@),
            inode.bytes(final(fs)@) == Seq::<u8>::empty(),
            final(fs)@.disk[0] == old(fs)@.disk[0],
            forall|p: int|
                0 <= p < old(fs)@.groups.len() * crate::config::BLOCKS_PER_GRP ==> #[trigger] final(fs)@.block_used(p)
                    == old(fs)@.block_used(p),
            forall|i: int|
                1 <= i <= old(fs)@.super_block.s_inodes_count ==> #[trigger] final(fs)@.inode_used(i) == old(fs)@.inode_used(i),
            forall|other: Inode|
                other.sound(old(fs)@) && other.inode_id != id ==> #[trigger] other.quiet(old(fs)@, final(fs)@),
    {
        let (block_id, block_offset) = fs.get_disk_inode_pos(id);
        let inode = Inode {
            inode_id: id as usize,
            block_id: block_id as usize,
            block_offset,
            file_type: file_code_of_mode(kind),
        };
        let ghost v0 = fs@;
        let blank = zeroed(EXT2_GOOD_OLD_INODE_SIZE);
        proof {
            v0.lemma_inode_pos(id as int);
            v0.lemma_inode_table_high(id as int);
        }
        fs.write_block_bytes(block_id as usize, block_offset, blank.as_slice());
        let mut disk_inode = DiskInode::new(DEFAULT_IMODE, kind, 0, 0);
        disk_inode.i_atime = fs.cur_time;
        disk_inode.i_ctime = fs.cur_time;
        let ghost v1 = fs@;
        proof {
            inode.lemma_valid(v0, v1);
        }
        inode.modify_disk_inode(fs, &disk_inode);
        proof {
            let v2 = fs@;
            inode.lemma_valid(v1, v2);
            reveal_with_fuel(blocks_between, 1);
            crate::sound::lemma_sound_empty(v2, inode.pos());
            assert(inode.bytes(v2) =~= Seq::<u8>::empty());
            v0.lemma_written_marks(block_id as int, block_offset as int, blank@);
            let region = v1.disk[block_id as int].subrange(block_offset as int, block_offset + 128);
            disk_inode.lemma_store_parse(region);
            v1.lemma_written_marks(block_id as int, block_offset as int, disk_inode.store(region));
            v0.lemma_same_geometry(v1);
            assert forall|other: Inode| other.sound(v0) && other.inode_id != id implies #[trigger] other.quiet(
                v0,
                v2,
            ) by {
                other.lemma_slot_written(inode, v0, block_offset as int, blank@);
                other.lemma_valid(v0, v1);
                inode.lemma_valid(v0, v1);
                other.lemma_slot_written(inode, v1, block_offset as int, disk_inode.store(region));
                lemma_quiet_trans(v0, v1, v2, other.pos(), blocks_for(other.inode(v0).i_size as int));
            }
        }
        inode
    }

    /// Gives this new directory its entries `.`, for itself, and `..`, for
    /// `parent`, and counts the two links. Fails, and changes nothing, with
    /// `InvalidData` where a link count is at its limit, and with `NoSpace`
    /// where the directory cannot take the entries; on sound files that
    /// are apart nothing else fails.
    #[verifier::rlimit(60)]
    pub fn link_dots<D: BlockDevice>(&self, fs: &mut Ext2FileSystem<D>, parent: &Inode) -> (r: Result<(), Ext2Error>)
        requires
            old(fs).wf(),
            self.valid(old(fs)@),
            parent.valid(old(fs)@),
        ensures
            final(fs).wf(),
            old(fs)@.same_geometry(final(fs)@),
            self.valid(final(fs)@),
            parent.valid(final(fs)@),
            final(fs)@.time == old(fs)@.time,
            r matches Err(e) ==> e == Ext2Error::NoSpace || e == Ext2Error::InvalidData || e
                == Ext2Error::Corruption,
            r matches Err(e) && e != Ext2Error::Corruption ==> final(fs)@ == old(fs)@,
            self.sound(old(fs)@) && (self.inode_id == parent.inode_id || (parent.sound(old(fs)@)
                && self.apart_from(*parent, old(fs)@))) ==> {
                &&& r is Ok <==> self.can_take_dots(old(fs)@, *parent)
                &&& r is Ok ==> self.took_dots(old(fs)@, final(fs)@, *parent)
            },
    {
        let ghost v0 = fs@;
        let same = self.inode_id == parent.inode_id;
        let mine = self.read_disk_inode(fs);
        let theirs = parent.read_disk_inode(fs);
        if mine.i_links_count > u16::MAX - 2 || theirs.i_links_count == u16::MAX {
            return Err(Ext2Error::InvalidData);
        }
        if mine.i_size > u32::MAX - 526 {
            return Err(Ext2Error::NoSpace);
        }
        let from = blocks_of(mine.i_size);
        let to = blocks_of(mine.i_size + 19);
        proof {
            lemma_blocks_between_bound(from as int, to as int);
        }
        if (fs.super_block.s_free_blocks_count as usize) < blocks_needed(from, to) {
            return Err(Ext2Error::NoSpace);
        }
        let dot: [u8; 1] = [46u8];
        let dot_dot: [u8; 2] = [46u8, 46u8];
        proof {
            assert(dot@ =~= crate::vfs::dot());
            assert(dot_dot@ =~= crate::vfs::dot_dot());
            self.lemma_valid(v0, v0);
            parent.lemma_valid(v0, v0);
            lemma_entry_bytes(self.inode_id as u32, crate::vfs::dot(), EXT2_FT_DIR);
            lemma_entry_bytes(parent.inode_id as u32, crate::vfs::dot_dot(), EXT2_FT_DIR);
            let mid = blocks_for(mine.i_size + 9);
            assert(from <= mid <= to);
            lemma_blocks_between_split(from as int, mid, to as int);
            lemma_blocks_between_bound(from as int, mid);
            lemma_blocks_between_bound(mid, to as int);
        }
        match self.append_dir_entry(fs, self.inode_id, dot.as_slice(), EXT2_FT_DIR) {
            Ok(_) => {},
            Err(e) => {
                proof {
                    parent.lemma_valid(v0, fs@);
                }
                return Err(if e == Ext2Error::NoSpace {
                    Ext2Error::NoSpace
                } else {
                    Ext2Error::Corruption
                });
            },
        }
        let ghost v1 = fs@;
        proof {
            parent.lemma_valid(v0, v1);
            assert(v1.wf());
            if self.sound(v0) && !same && parent.sound(v0) && self.apart_from(*parent, v0) {
                self.lemma_leaves_alone(*parent, v0, v1);
                self.lemma_step_spares(*parent, v0, v1);
            }
            assert(blocks_for(mine.i_size + 9) == blocks_for(self.inode(v0).i_size + 9));
        }
        match self.append_dir_entry(fs, parent.inode_id, dot_dot.as_slice(), EXT2_FT_DIR) {
            Ok(_) => {},
            Err(e) => {
                proof {
                    parent.lemma_valid(v1, fs@);
                }
                return Err(Ext2Error::Corruption);
            },
        }
        let ghost v2 = fs@;
        proof {
            parent.lemma_valid(v1, v2);
            assert(v2.wf());
            if self.sound(v0) && !same && parent.sound(v0) && self.apart_from(*parent, v0) {
                self.lemma_leaves_alone(*parent, v1, v2);
                self.lemma_step_spares(*parent, v1, v2);
                self.lemma_spares_twice(*parent, v0, v1, v2);
            }
        }
        let mut mine = self.read_disk_inode(fs);
        mine.i_links_count = mine.i_links_count + 1;
        self.modify_disk_inode(fs, &mine);
        let ghost v3 = fs@;
        proof {
            parent.lemma_valid(v2, v3);
            self.lemma_valid(v2, v2);
            lemma_counted_trans(v0, v1, v2);
            lemma_written_counted(
                v2,
                self.block_id as int,
                self.block_offset as int,
                mine.store(v2.disk[self.block_id as int].subrange(self.block_offset as int, self.block_offset + 128)),
            );
            lemma_counted_trans(v0, v2, v3);
            if self.sound(v0) {
                self.lemma_restored(v2, mine);
                if !same && parent.sound(v0) && self.apart_from(*parent, v0) {
                    self.lemma_valid(v2, v2);
                    lemma_inode_is_file_changed(v2, self.pos(), mine);
                    lemma_written_counted(
                        v2,
                        self.block_id as int,
                        self.block_offset as int,
                        mine.store(
                            v2.disk[self.block_id as int].subrange(self.block_offset as int, self.block_offset + 128),
                        ),
                    );
                    self.lemma_leaves_alone(*parent, v2, v3);
                    self.lemma_step_spares(*parent, v2, v3);
                    self.lemma_spares_twice(*parent, v0, v2, v3);
                }
            }
            assert(v3.wf());
        }
        let mut theirs = parent.read_disk_inode(fs);
        if theirs.i_links_count == u16::MAX {
            return Err(Ext2Error::Corruption);
        }
        theirs.i_links_count = theirs.i_links_count + 1;
        parent.modify_disk_inode(fs, &theirs);
        proof {
            let v4 = fs@;
            self.lemma_valid(v3, v4);
            parent.lemma_valid(v3, v3);
            lemma_written_counted(
                v3,
                parent.block_id as int,
                parent.block_offset as int,
                theirs.store(
                    v3.disk[parent.block_id as int].subrange(parent.block_offset as int, parent.block_offset + 128),
                ),
            );
            lemma_counted_trans(v0, v3, v4);
            if self.sound(v0) && (same || (parent.sound(v0) && self.apart_from(*parent, v0))) {
                v0.lemma_inode_table_high(self.inode_id as int);
                v0.lemma_inode_table_high(parent.inode_id as int);
                self.lemma_valid(v0, v2);
                lemma_boot_kept(v0, v1, self.pos());
                lemma_boot_kept(v1, v2, self.pos());
                lemma_inode_is_file_changed(v2, self.pos(), mine);
                lemma_boot_kept(v2, v3, self.pos());
                lemma_inode_is_file_changed(v3, parent.pos(), theirs);
                lemma_boot_kept(v3, v4, parent.pos());
                let a = entry_bytes(self.inode_id as u32, crate::vfs::dot(), EXT2_FT_DIR);
                let b = entry_bytes(parent.inode_id as u32, crate::vfs::dot_dot(), EXT2_FT_DIR);
                assert((self.bytes(v0) + a) + b =~= self.bytes(v0) + (a + b));
                if same {
                    self.lemma_restored(v3, theirs);
                    lemma_stepped_trans(
                        v0,
                        v1,
                        v2,
                        self.pos(),
                        blocks_for(self.inode(v0).i_size as int),
                        blocks_for(self.inode(v1).i_size as int),
                        blocks_for(self.inode(v2).i_size as int),
                    );
                    lemma_stepped_trans(
                        v0,
                        v2,
                        v3,
                        self.pos(),
                        blocks_for(self.inode(v0).i_size as int),
                        blocks_for(self.inode(v2).i_size as int),
                        blocks_for(self.inode(v3).i_size as int),
                    );
                    lemma_stepped_trans(
                        v0,
                        v3,
                        v4,
                        self.pos(),
                        blocks_for(self.inode(v0).i_size as int),
                        blocks_for(self.inode(v3).i_size as int),
                        blocks_for(self.inode(v4).i_size as int),
                    );
                } else {
                    parent.lemma_restored(v3, theirs);
                    parent.lemma_valid(v3, v3);
                    lemma_inode_is_file_changed(v3, parent.pos(), theirs);
                    lemma_written_counted(
                        v3,
                        parent.block_id as int,
                        parent.block_offset as int,
                        theirs.store(
                            v3.disk[parent.block_id as int].subrange(
                                parent.block_offset as int,
                                parent.block_offset + 128,
                            ),
                        ),
                    );
                    lemma_apart_sym(
                        v3,
                        self.pos(),
                        blocks_for(self.inode(v3).i_size as int),
                        parent.pos(),
                        blocks_for(parent.inode(v3).i_size as int),
                    );
                    parent.lemma_leaves_alone(*self, v3, v4);
                    lemma_apart_sym(
                        v4,
                        parent.pos(),
                        blocks_for(parent.inode(v4).i_size as int),
                        self.pos(),
                        blocks_for(self.inode(v4).i_size as int),
                    );
                    parent.lemma_step_spares(*self, v3, v4);
                    parent.lemma_spares_sym(*self, v3, v4);
                    self.lemma_spares_twice(*parent, v0, v3, v4);
                }
            }
        }
        Ok(())
    }

    /// This directory can take its entries `.` and `..`: the link counts
    /// have room for the new links, and the directory for nineteen bytes.
    pub open spec fn can_take_dots(&self, v: FsView, parent: Inode) -> bool {
        let size = self.inode(v).i_size as int;
        &&& self.inode(v).i_links_count <= u16::MAX - 2
        &&& parent.inode(v).i_links_count < u16::MAX
        &&& size <= u32::MAX - 526
        &&& v.super_block.s_free_blocks_count >= blocks_between(blocks_for(size), blocks_for(size + 19))
    }

    /// `w` is `v` after this sound directory got its entries `.` and `..`:
    /// it holds them behind what it held, and one link more is counted for
    /// it and one for `parent`, which is left alone otherwise.
    pub open spec fn took_dots(&self, v: FsView, w: FsView, parent: Inode) -> bool {
        let same = self.inode_id == parent.inode_id;
        &&& self.sound(w)
        &&& only_blocks_counted(v, w)
        &&& w.disk[0] == v.disk[0]
        &&& w.super_block.s_free_blocks_count == v.super_block.s_free_blocks_count - blocks_between(
            blocks_for(self.inode(v).i_size as int),
            blocks_for(self.inode(v).i_size + 19),
        )
        &&& self.bytes(w) == self.bytes(v) + (entry_bytes(self.inode_id as u32, dot(), EXT2_FT_DIR) + entry_bytes(
            parent.inode_id as u32,
            dot_dot(),
            EXT2_FT_DIR,
        ))
        &&& self.inode(w) == (DiskInode {
            i_size: (self.inode(v).i_size + 19) as u32,
            i_blocks: self.inode(w).i_blocks,
            i_atime: v.time,
            i_mtime: v.time,
            i_links_count: (self.inode(v).i_links_count + if same {
                2int
            } else {
                1int
            }) as u16,
            ..self.inode(v)
        })
        &&& !same ==> {
            &&& parent.sound(w)
            &&& parent.bytes(w) == parent.bytes(v)
            &&& parent.inode(w) == (DiskInode {
                i_links_count: (parent.inode(v).i_links_count + 1) as u16,
                ..parent.inode(v)
            })
            &&& self.apart_from(parent, w)
            &&& self.spares(parent, v, w)
        }
    }

    /// This directory has an entry `name` in `v`.
    pub open spec fn has_name(&self, v: FsView, name: Seq<u8>) -> bool {
        self.found(v, name) matches Ok(Some(_))
    }

    /// The kind of file that the handle stands for in `v`: what the handle
    /// knows, else what the inode says.
    pub open spec fn kind(&self, v: FsView) -> u8 {
        if self.file_type == EXT2_FT_UNKNOWN {
            self.inode(v).spec_file_code()
        } else {
            self.file_type
        }
    }
}

/// Blocks that a file of `size` bytes has.
pub fn blocks_of(size: u32) -> (n: usize)
    ensures
        n == blocks_for(size as int),
        n <= MAX_SIZE_BLOCKS,
{
    ((size as u64 + 4095) / 4096) as usize
}

/// Growing in two steps takes as many blocks as growing in one.
pub proof fn lemma_blocks_between_split(from: int, mid: int, to: int)
    requires
        from <= mid <= to,
    ensures
        blocks_between(from, to) == blocks_between(from, mid) + blocks_between(mid, to),
    decreases to - mid,
{
    if mid < to {
        lemma_blocks_between_split(from, mid, to - 1);
    }
}

} // verus!
