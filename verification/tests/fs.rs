use ext2fs::efs::Ext2FileSystem;
use ext2fs::layout::{EXT2_FT_DIR, EXT2_FT_REG_FILE, EXT2_FT_SYMLINK, EXT2_S_IFLNK, SB_MAGIC};
use ext2fs::vfs::Inode;
use ext2fs::{Ext2Error, RamDisk, BLOCK_SIZE, EXT2_S_IFDIR, EXT2_S_IFREG};

const IMAGE_BLOCKS: usize = 4096;

fn fresh() -> Ext2FileSystem<RamDisk> {
    Ext2FileSystem::create(RamDisk::new(IMAGE_BLOCKS), 64).unwrap()
}

fn reopen(mut fs: Ext2FileSystem<RamDisk>, now: u32) -> Ext2FileSystem<RamDisk> {
    fs.write_meta();
    fs.sync();
    Ext2FileSystem::open(fs.manager.device, 64, now).unwrap()
}

fn digits(len: usize, seed: u64) -> Vec<u8> {
    let mut state = seed;
    let mut out = Vec::with_capacity(len);
    for _ in 0..len {
        state = state.wrapping_mul(6364136223846793005).wrapping_add(1442695040888963407);
        out.push(b'0' + ((state >> 33) % 10) as u8);
    }
    out
}

fn read_whole(fs: &mut Ext2FileSystem<RamDisk>, file: &Inode, chunk: usize) -> Vec<u8> {
    let mut out = Vec::new();
    let mut buf = vec![0u8; chunk];
    let mut offset = 0usize;
    loop {
        let n = file.read_at(fs, offset, &mut buf).unwrap();
        if n == 0 {
            break;
        }
        out.extend_from_slice(&buf[..n]);
        offset += n;
    }
    out
}

fn set_bits(fs: &Ext2FileSystem<RamDisk>, block: usize) -> usize {
    let mut manager_view = fs.manager.device.data[block].clone();
    for cached in fs.manager.blocks.iter() {
        if cached.block_id == block {
            manager_view = cached.cache.clone();
        }
    }
    manager_view.iter().map(|b| b.count_ones() as usize).sum()
}

fn assert_counters_consistent(fs: &Ext2FileSystem<RamDisk>) {
    let mut inodes_used = 0;
    let mut blocks_used = 0;
    let mut free_inodes = 0;
    let mut free_blocks = 0;
    for d in fs.group_desc_table.iter() {
        let bi = set_bits(fs, d.bg_inode_bitmap as usize);
        let bb = set_bits(fs, d.bg_block_bitmap as usize);
        assert_eq!(32768 - bi, d.bg_free_inodes_count as usize);
        assert_eq!(32768 - bb, d.bg_free_blocks_count as usize);
        inodes_used += bi;
        blocks_used += bb;
        free_inodes += d.bg_free_inodes_count as usize;
        free_blocks += d.bg_free_blocks_count as usize;
    }
    assert_eq!(free_inodes, fs.super_block.s_free_inodes_count as usize);
    assert_eq!(free_blocks, fs.super_block.s_free_blocks_count as usize);
    assert_eq!(
        inodes_used,
        fs.super_block.s_inodes_count as usize - fs.super_block.s_free_inodes_count as usize
    );
    assert_eq!(
        blocks_used,
        fs.group_desc_table.len() * 32768 - fs.super_block.s_free_blocks_count as usize
    );
}

#[test]
fn fresh_image_lists_dot_entries_after_mount() {
    let fs = Ext2FileSystem::create(RamDisk::new(32768), 64).unwrap();
    let mut fs = reopen(fs, 1000);
    let root = fs.root_inode();
    assert_eq!(root.ls(&mut fs).unwrap(), vec![".", ".."]);
}

#[test]
fn hello_world_round_trip() {
    let mut fs = reopen(fresh(), 1000);
    let root = fs.root_inode();
    root.create(&mut fs, "filea", EXT2_S_IFREG).unwrap();
    root.create(&mut fs, "fileb", EXT2_S_IFREG).unwrap();
    assert_eq!(root.ls(&mut fs).unwrap(), vec![".", "..", "filea", "fileb"]);
    let filea = root.find(&mut fs, "filea").unwrap();
    assert_eq!(filea.write_at(&mut fs, 0, b"Hello, world!").unwrap(), 13);
    let mut buf = vec![0u8; 255];
    let n = filea.read_at(&mut fs, 0, &mut buf).unwrap();
    assert_eq!(n, 13);
    assert_eq!(&buf[..n], b"Hello, world!");
    assert!(buf[n..].iter().all(|b| *b == 0));
}

#[test]
fn four_blocks_read_in_small_chunks() {
    let mut fs = fresh();
    let root = fs.root_inode();
    let file = root.create(&mut fs, "filea", EXT2_S_IFREG).unwrap();
    let text = digits(4 * BLOCK_SIZE, 3);
    assert_eq!(file.write_at(&mut fs, 0, &text).unwrap(), text.len());
    assert_eq!(read_whole(&mut fs, &file, 127), text);
}

#[test]
fn write_crossing_into_indirect_blocks() {
    let mut fs = fresh();
    let root = fs.root_inode();
    let file = root.create(&mut fs, "filea", EXT2_S_IFREG).unwrap();
    let text = digits((12 + 128) * BLOCK_SIZE, 4);
    assert_eq!(text.len(), 573440);
    assert_eq!(file.write_at(&mut fs, 0, &text).unwrap(), text.len());
    assert_eq!(read_whole(&mut fs, &file, 8191), text);
    let inode = file.read_disk_inode(&mut fs);
    assert_eq!(inode.i_size, 573440);
    // 140 data blocks and one indirect block, in sectors of 512 bytes
    assert_eq!(inode.i_blocks, 141 * 8);
}

#[test]
fn eight_megabytes_through_double_indirect_blocks() {
    let mut fs = fresh();
    let root = fs.root_inode();
    let file = root.create(&mut fs, "filea", EXT2_S_IFREG).unwrap();
    let text = digits(2000 * BLOCK_SIZE, 5);
    assert_eq!(file.write_at(&mut fs, 0, &text).unwrap(), text.len());
    assert_eq!(read_whole(&mut fs, &file, 65536), text);
    let inode = file.read_disk_inode(&mut fs);
    // 2000 data blocks, the indirect block, the double indirect block and
    // one indirect block below it
    assert_eq!(inode.i_blocks, (2000 + 1 + 1 + 1) * 8);
    assert_counters_consistent(&fs);
}

#[test]
fn unlink_frees_the_inode_and_the_name() {
    let mut fs = fresh();
    let root = fs.root_inode();
    root.create(&mut fs, "filea", EXT2_S_IFREG).unwrap();
    root.create(&mut fs, "fileb", EXT2_S_IFREG).unwrap();
    let before = fs.super_block.s_free_inodes_count;
    root.unlink(&mut fs, "fileb").unwrap();
    let names = root.ls(&mut fs).unwrap();
    assert!(!names.contains(&String::from("fileb")));
    assert_eq!(names, vec![".", "..", "filea"]);
    assert_eq!(fs.super_block.s_free_inodes_count, before + 1);
    root.create(&mut fs, "fileb", EXT2_S_IFREG).unwrap();
    assert_eq!(root.ls(&mut fs).unwrap(), vec![".", "..", "filea", "fileb"]);
    assert_counters_consistent(&fs);
}

#[test]
fn counters_stay_consistent_over_a_mixed_run() {
    let mut fs = fresh();
    assert_counters_consistent(&fs);
    let root = fs.root_inode();
    let a = root.create(&mut fs, "a", EXT2_S_IFREG).unwrap();
    a.write_at(&mut fs, 0, &digits(20 * BLOCK_SIZE, 1)).unwrap();
    assert_counters_consistent(&fs);
    let d = root.create(&mut fs, "d", EXT2_S_IFDIR).unwrap();
    let b = d.create(&mut fs, "b", EXT2_S_IFREG).unwrap();
    b.write_at(&mut fs, 5000, b"xyz").unwrap();
    assert_counters_consistent(&fs);
    a.clear(&mut fs).unwrap();
    assert_counters_consistent(&fs);
    root.unlink(&mut fs, "d").unwrap();
    assert_counters_consistent(&fs);
    root.unlink(&mut fs, "a").unwrap();
    assert_counters_consistent(&fs);
}

#[test]
fn write_at_offset_round_trips() {
    let mut fs = fresh();
    let root = fs.root_inode();
    let file = root.create(&mut fs, "f", EXT2_S_IFREG).unwrap();
    let text = digits(3 * BLOCK_SIZE + 17, 8);
    let offset = 11 * BLOCK_SIZE + 4000;
    assert_eq!(file.write_at(&mut fs, offset, &text).unwrap(), text.len());
    let mut buf = vec![0u8; text.len()];
    assert_eq!(file.read_at(&mut fs, offset, &mut buf).unwrap(), text.len());
    assert_eq!(buf, text);
    assert_eq!(file.read_disk_inode(&mut fs).i_size as usize, offset + text.len());
}

#[test]
fn read_at_past_the_end_gives_nothing() {
    let mut fs = fresh();
    let root = fs.root_inode();
    let file = root.create(&mut fs, "f", EXT2_S_IFREG).unwrap();
    file.write_at(&mut fs, 0, b"abc").unwrap();
    let mut buf = vec![9u8; 4];
    assert_eq!(file.read_at(&mut fs, 3, &mut buf).unwrap(), 0);
    assert_eq!(file.read_at(&mut fs, 100, &mut buf).unwrap(), 0);
    assert_eq!(buf, vec![9u8; 4]);
    assert_eq!(file.read_at(&mut fs, 1, &mut buf).unwrap(), 2);
    assert_eq!(buf, vec![b'b', b'c', 9, 9]);
}

#[test]
fn append_writes_behind_the_end() {
    let mut fs = fresh();
    let root = fs.root_inode();
    let file = root.create(&mut fs, "f", EXT2_S_IFREG).unwrap();
    assert_eq!(file.append(&mut fs, b"abc").unwrap(), 3);
    assert_eq!(file.append(&mut fs, b"defg").unwrap(), 4);
    assert_eq!(read_whole(&mut fs, &file, 16), b"abcdefg");
}

#[test]
fn truncate_keeps_the_front() {
    let mut fs = fresh();
    let root = fs.root_inode();
    let file = root.create(&mut fs, "f", EXT2_S_IFREG).unwrap();
    let text = digits(20 * BLOCK_SIZE, 9);
    file.write_at(&mut fs, 0, &text).unwrap();
    let free_before = fs.super_block.s_free_blocks_count;
    let n = 5 * BLOCK_SIZE + 100;
    assert_eq!(file.ftruncate(&mut fs, n as u32).unwrap(), true);
    let mut buf = vec![0u8; n];
    assert_eq!(file.read_at(&mut fs, 0, &mut buf).unwrap(), n);
    assert_eq!(buf, text[..n]);
    let inode = file.read_disk_inode(&mut fs);
    assert_eq!(inode.i_size as usize, n);
    assert_eq!(inode.i_blocks, 6 * 8);
    // 14 data blocks and the indirect block came back
    assert_eq!(fs.super_block.s_free_blocks_count, free_before + 15);
    // growing again allocates eagerly
    assert_eq!(file.ftruncate(&mut fs, (13 * BLOCK_SIZE) as u32).unwrap(), true);
    assert_eq!(file.read_disk_inode(&mut fs).i_blocks, 14 * 8);
    assert_eq!(file.read_at(&mut fs, 0, &mut buf).unwrap(), n);
    assert_eq!(buf, text[..n]);
    assert_counters_consistent(&fs);
}

#[test]
fn truncate_refuses_directories() {
    let mut fs = fresh();
    let root = fs.root_inode();
    let before = root.read_disk_inode(&mut fs);
    assert_eq!(root.ftruncate(&mut fs, 0).unwrap(), false);
    assert_eq!(root.read_disk_inode(&mut fs), before);
}

#[test]
fn clear_is_idempotent() {
    let mut fs = fresh();
    let root = fs.root_inode();
    let file = root.create(&mut fs, "f", EXT2_S_IFREG).unwrap();
    let free = fs.super_block.s_free_blocks_count;
    file.write_at(&mut fs, 0, &digits(1100 * BLOCK_SIZE, 2)).unwrap();
    file.clear(&mut fs).unwrap();
    assert_eq!(fs.super_block.s_free_blocks_count, free);
    let inode = file.read_disk_inode(&mut fs);
    assert_eq!((inode.i_size, inode.i_blocks), (0, 0));
    file.clear(&mut fs).unwrap();
    assert_eq!(fs.super_block.s_free_blocks_count, free);
    assert_eq!(read_whole(&mut fs, &file, 64), b"");
}

#[test]
fn new_directory_has_dot_entries() {
    let mut fs = fresh();
    let root = fs.root_inode();
    let root_links = root.read_disk_inode(&mut fs).i_links_count;
    let d = root.create(&mut fs, "d", EXT2_S_IFDIR).unwrap();
    assert_eq!(d.file_type, EXT2_FT_DIR);
    assert_eq!(d.ls(&mut fs).unwrap(), vec![".", ".."]);
    assert_eq!(d.find(&mut fs, ".").unwrap().inode_id, d.inode_id);
    assert_eq!(d.find(&mut fs, "..").unwrap().inode_id, root.inode_id);
    assert_eq!(d.read_disk_inode(&mut fs).i_links_count, 2);
    assert_eq!(root.read_disk_inode(&mut fs).i_links_count, root_links + 1);
    assert_eq!(root.find(&mut fs, "d").unwrap().inode_id, d.inode_id);
}

#[test]
fn new_file_starts_with_one_link_and_default_permissions() {
    let mut fs = fresh();
    fs.set_time(77);
    let root = fs.root_inode();
    let f = root.create(&mut fs, "f", EXT2_S_IFREG | 0o123).unwrap();
    assert_eq!(f.file_type, EXT2_FT_REG_FILE);
    assert_eq!(f.inode_id, 11);
    let inode = f.read_disk_inode(&mut fs);
    assert_eq!(inode.i_mode, EXT2_S_IFREG | 0o777);
    assert_eq!(inode.i_links_count, 1);
    assert_eq!((inode.i_size, inode.i_atime, inode.i_ctime), (0, 77, 77));
}

#[test]
fn unlink_removes_a_populated_subtree() {
    let mut fs = fresh();
    let root = fs.root_inode();
    let free_inodes = fs.super_block.s_free_inodes_count;
    let free_blocks = fs.super_block.s_free_blocks_count;
    let root_links = root.read_disk_inode(&mut fs).i_links_count;
    let d = root.create(&mut fs, "d", EXT2_S_IFDIR).unwrap();
    let e = d.create(&mut fs, "e", EXT2_S_IFDIR).unwrap();
    let f = e.create(&mut fs, "f", EXT2_S_IFREG).unwrap();
    f.write_at(&mut fs, 0, &digits(30 * BLOCK_SIZE, 6)).unwrap();
    d.create(&mut fs, "g", EXT2_S_IFREG).unwrap();
    assert_eq!(fs.super_block.s_free_inodes_count, free_inodes - 4);
    root.unlink(&mut fs, "d").unwrap();
    assert_eq!(root.ls(&mut fs).unwrap(), vec![".", ".."]);
    assert_eq!(fs.super_block.s_free_inodes_count, free_inodes);
    assert_eq!(fs.super_block.s_free_blocks_count, free_blocks);
    assert_eq!(root.read_disk_inode(&mut fs).i_links_count, root_links);
    assert_eq!(root.find(&mut fs, "d").unwrap_err(), Ext2Error::NotFound);
    assert_counters_consistent(&fs);
}

#[test]
fn hard_link_shares_the_file() {
    let mut fs = fresh();
    let root = fs.root_inode();
    let f = root.create(&mut fs, "f", EXT2_S_IFREG).unwrap();
    f.write_at(&mut fs, 0, b"shared").unwrap();
    root.link(&mut fs, "g", f.inode_id).unwrap();
    assert_eq!(f.read_disk_inode(&mut fs).i_links_count, 2);
    let g = root.find(&mut fs, "g").unwrap();
    assert_eq!(g.inode_id, f.inode_id);
    root.unlink(&mut fs, "f").unwrap();
    assert_eq!(g.read_disk_inode(&mut fs).i_links_count, 1);
    assert_eq!(read_whole(&mut fs, &g, 16), b"shared");
}

#[test]
fn link_errors() {
    let mut fs = fresh();
    let root = fs.root_inode();
    let f = root.create(&mut fs, "f", EXT2_S_IFREG).unwrap();
    let d = root.create(&mut fs, "d", EXT2_S_IFDIR).unwrap();
    root.symlink(&mut fs, "s", "/f").unwrap();
    let s = root.find(&mut fs, "s").unwrap();
    assert_eq!(root.link(&mut fs, "x", 0).unwrap_err(), Ext2Error::NotFound);
    assert_eq!(root.link(&mut fs, "x", 1 << 30).unwrap_err(), Ext2Error::NotFound);
    assert_eq!(root.link(&mut fs, "f", f.inode_id).unwrap_err(), Ext2Error::AlreadyExists);
    assert_eq!(root.link(&mut fs, "x", d.inode_id).unwrap_err(), Ext2Error::IsADirectory);
    assert_eq!(root.link(&mut fs, "x", s.inode_id).unwrap_err(), Ext2Error::InvalidData);
    assert_eq!(f.link(&mut fs, "x", f.inode_id).unwrap_err(), Ext2Error::NotADirectory);
}

#[test]
fn symlink_holds_its_path() {
    let mut fs = fresh();
    let root = fs.root_inode();
    root.symlink(&mut fs, "s", "/some/where").unwrap();
    let s = root.find(&mut fs, "s").unwrap();
    assert_eq!(s.file_type, EXT2_FT_SYMLINK);
    assert_eq!(s.read_disk_inode(&mut fs).i_mode & 0xF000, EXT2_S_IFLNK);
    assert_eq!(read_whole(&mut fs, &s, 64), b"/some/where");
}

#[test]
fn create_errors() {
    let mut fs = fresh();
    let root = fs.root_inode();
    let f = root.create(&mut fs, "f", EXT2_S_IFREG).unwrap();
    assert_eq!(root.create(&mut fs, "f", EXT2_S_IFREG).unwrap_err(), Ext2Error::AlreadyExists);
    assert_eq!(f.create(&mut fs, "x", EXT2_S_IFREG).unwrap_err(), Ext2Error::NotADirectory);
    assert_eq!(f.find(&mut fs, "x").unwrap_err(), Ext2Error::NotADirectory);
    assert_eq!(f.ls(&mut fs).unwrap_err(), Ext2Error::NotADirectory);
    assert_eq!(root.find(&mut fs, "nothing").unwrap_err(), Ext2Error::NotFound);
}

#[test]
fn unlink_errors() {
    let mut fs = fresh();
    let root = fs.root_inode();
    let f = root.create(&mut fs, "f", EXT2_S_IFREG).unwrap();
    assert_eq!(root.unlink(&mut fs, ".").unwrap_err(), Ext2Error::InvalidData);
    assert_eq!(root.unlink(&mut fs, "..").unwrap_err(), Ext2Error::InvalidData);
    assert_eq!(root.unlink(&mut fs, "nothing").unwrap_err(), Ext2Error::NotFound);
    assert_eq!(f.unlink(&mut fs, "x").unwrap_err(), Ext2Error::NotADirectory);
}

#[test]
fn no_space_leaves_everything_as_it_was() {
    let mut fs = fresh();
    let root = fs.root_inode();
    let f = root.create(&mut fs, "f", EXT2_S_IFREG).unwrap();
    let free = fs.super_block.s_free_blocks_count;
    let too_much = (free as usize + 1) * BLOCK_SIZE;
    assert_eq!(f.ftruncate(&mut fs, too_much as u32).unwrap_err(), Ext2Error::NoSpace);
    assert_eq!(fs.super_block.s_free_blocks_count, free);
    assert_eq!(f.read_disk_inode(&mut fs).i_size, 0);
    assert_counters_consistent(&fs);
}

#[test]
fn chmod_replaces_the_permission_bits() {
    let mut fs = fresh();
    fs.set_time(5);
    let root = fs.root_inode();
    let f = root.create(&mut fs, "f", EXT2_S_IFREG).unwrap();
    fs.set_time(9);
    f.chmod(&mut fs, 0o640);
    let inode = f.read_disk_inode(&mut fs);
    assert_eq!(inode.i_mode, EXT2_S_IFREG | 0o640);
    assert_eq!((inode.i_ctime, inode.i_atime), (9, 9));
    f.chmod(&mut fs, 0xFFFF);
    assert_eq!(f.read_disk_inode(&mut fs).i_mode, EXT2_S_IFREG | 0x0FFF);
}

#[test]
fn chown_sets_what_is_given() {
    let mut fs = fresh();
    let root = fs.root_inode();
    let f = root.create(&mut fs, "f", EXT2_S_IFREG).unwrap();
    fs.set_time(12);
    f.chown(&mut fs, Some(7), None);
    let inode = f.read_disk_inode(&mut fs);
    assert_eq!((inode.i_uid, inode.i_gid, inode.i_mtime), (7, 0, 12));
    f.chown(&mut fs, None, Some(8));
    let inode = f.read_disk_inode(&mut fs);
    assert_eq!((inode.i_uid, inode.i_gid), (7, 8));
}

#[test]
fn mount_counts_and_keeps_the_counters() {
    let mut fs = fresh();
    let root = fs.root_inode();
    let f = root.create(&mut fs, "f", EXT2_S_IFREG).unwrap();
    f.write_at(&mut fs, 0, b"kept").unwrap();
    let before = fs.super_block;
    let tables = fs.group_desc_table.clone();
    let mut fs = reopen(fs, 4242);
    assert_eq!(fs.super_block.s_magic, SB_MAGIC);
    assert_eq!(fs.super_block.s_mnt_count, before.s_mnt_count + 1);
    assert_eq!(fs.super_block.s_mtime, 4242);
    assert_eq!(fs.super_block.s_free_blocks_count, before.s_free_blocks_count);
    assert_eq!(fs.super_block.s_free_inodes_count, before.s_free_inodes_count);
    assert_eq!(fs.super_block.s_inodes_count, before.s_inodes_count);
    assert_eq!(fs.super_block.s_blocks_count, before.s_blocks_count);
    assert_eq!(fs.group_desc_table, tables);
    let root = fs.root_inode();
    assert_eq!(root.file_type, EXT2_FT_DIR);
    let f = root.find(&mut fs, "f").unwrap();
    assert_eq!(read_whole(&mut fs, &f, 16), b"kept");
    let fs = reopen(fs, 4243);
    assert_eq!(fs.super_block.s_mnt_count, before.s_mnt_count + 2);
}

#[test]
fn create_lays_out_a_fresh_image() {
    let fs = fresh();
    assert_eq!(fs.super_block.s_magic, 0xEF53);
    assert_eq!(fs.super_block.s_inodes_count, 32768);
    assert_eq!(fs.super_block.s_blocks_count, 4096);
    assert_eq!(fs.super_block.s_free_inodes_count, 32768 - 10);
    assert_eq!(fs.super_block.s_log_block_size, 2);
    assert_eq!(fs.super_block.s_first_ino, 11);
    assert_eq!(fs.super_block.s_inode_size, 128);
    assert_eq!(fs.group_desc_table.len(), 1);
    let d = fs.group_desc_table[0];
    // the superblock, 32 blocks kept for descriptors, then the bitmaps
    assert_eq!((d.bg_block_bitmap, d.bg_inode_bitmap, d.bg_inode_table), (33, 34, 35));
    // one block went to the root directory
    assert_eq!(d.bg_free_blocks_count, 4096 - 33 - 1026 - 1);
    assert_eq!(fs.super_block.s_free_blocks_count, 4096 - 33 - 1026 - 1);
    // the magic number stands at byte 56 of the superblock, little-endian
    assert_eq!(fs.manager.device.data[0][1024 + 56], 0x53);
    assert_eq!(fs.manager.device.data[0][1024 + 57], 0xEF);
    assert_counters_consistent(&fs);
}

#[test]
fn create_keeps_the_boot_sector() {
    let mut disk = RamDisk::new(IMAGE_BLOCKS);
    for i in 0..BLOCK_SIZE {
        disk.data[0][i] = 0xAB;
        disk.data[5][i] = 0xCD;
    }
    let fs = Ext2FileSystem::create(disk, 8).unwrap();
    assert!(fs.manager.device.data[0][..1024].iter().all(|b| *b == 0xAB));
    assert!(fs.manager.device.data[0][2048..].iter().all(|b| *b == 0));
    assert!(fs.manager.device.data[5].iter().all(|b| *b == 0));
}

#[test]
fn create_drops_a_last_group_without_room() {
    let fs = Ext2FileSystem::create(RamDisk::new(32768 + 1026), 8).unwrap();
    assert_eq!(fs.group_desc_table.len(), 1);
    assert_eq!(fs.super_block.s_blocks_count, 32768);
    let fs = Ext2FileSystem::create(RamDisk::new(32768 + 1027), 8).unwrap();
    assert_eq!(fs.group_desc_table.len(), 2);
    assert_eq!(fs.super_block.s_blocks_count, 32768 + 1027);
    assert_eq!(fs.group_desc_table[1].bg_block_bitmap, 32768);
    assert_eq!(fs.group_desc_table[1].bg_free_blocks_count, 1);
    assert_counters_consistent(&fs);
}

#[test]
fn create_refuses_what_cannot_work() {
    assert_eq!(
        Ext2FileSystem::create(RamDisk::new(IMAGE_BLOCKS), 0).err(),
        Some(Ext2Error::InvalidData)
    );
    assert_eq!(Ext2FileSystem::create(RamDisk::new(0), 8).err(), Some(Ext2Error::NoSpace));
    assert_eq!(Ext2FileSystem::create(RamDisk::new(1030), 8).err(), Some(Ext2Error::NoSpace));
}

#[test]
fn open_refuses_what_is_no_file_system() {
    assert_eq!(
        Ext2FileSystem::open(RamDisk::new(IMAGE_BLOCKS), 8, 0).err(),
        Some(Ext2Error::InvalidData)
    );
    let mut fs = fresh();
    fs.sync();
    let mut disk = fs.manager.device;
    assert_eq!(
        Ext2FileSystem::open(RamDisk { data: disk.data.clone() }, 0, 0).err(),
        Some(Ext2Error::InvalidData)
    );
    // a free count that the bitmap does not bear out
    disk.data[0][1024 + 12] ^= 1;
    assert_eq!(Ext2FileSystem::open(disk, 8, 0).err(), Some(Ext2Error::InvalidData));
}

#[test]
fn get_inode_knows_its_range() {
    let mut fs = fresh();
    assert!(fs.get_inode(0).is_none());
    assert!(fs.get_inode(32769).is_none());
    let root = fs.get_inode(2).unwrap();
    assert_eq!(root.inode_id, 2);
    assert_eq!(root.file_type, EXT2_FT_DIR);
    assert_eq!(fs.get_disk_inode_pos(1), (35, 0));
    assert_eq!(fs.get_disk_inode_pos(2), (35, 128));
    assert_eq!(fs.get_disk_inode_pos(33), (36, 0));
    assert_eq!(fs.get_disk_inode_pos(32768), (35 + 1023, 31 * 128));
}

#[test]
fn allocation_hands_out_the_lowest_free() {
    let mut fs = fresh();
    let free_blocks = fs.super_block.s_free_blocks_count;
    let a = fs.alloc_data().unwrap();
    let b = fs.alloc_data().unwrap();
    assert_eq!(b, a + 1);
    assert!(fs.is_data_block(a));
    assert_eq!(fs.super_block.s_free_blocks_count, free_blocks - 2);
    fs.dealloc_block(a).unwrap();
    assert_eq!(fs.dealloc_block(a).unwrap_err(), Ext2Error::Corruption);
    assert_eq!(fs.dealloc_block(0).unwrap_err(), Ext2Error::Corruption);
    assert_eq!(fs.alloc_data().unwrap(), a);
    let i = fs.alloc_inode().unwrap();
    assert_eq!(i, 11);
    assert_eq!(fs.alloc_inode().unwrap(), 12);
    fs.dealloc_inode(11).unwrap();
    assert_eq!(fs.dealloc_inode(11).unwrap_err(), Ext2Error::Corruption);
    assert_eq!(fs.alloc_inode().unwrap(), 11);
    assert_counters_consistent(&fs);
}

#[test]
fn create_refuses_an_empty_name() {
    let mut fs = fresh();
    let root = fs.root_inode();
    let before = fs.super_block.s_free_inodes_count;
    assert_eq!(root.create(&mut fs, "", EXT2_S_IFREG).unwrap_err(), Ext2Error::InvalidData);
    assert_eq!(fs.super_block.s_free_inodes_count, before);
    assert_eq!(root.ls(&mut fs).unwrap(), vec![".", ".."]);
}

#[test]
fn long_names_are_cut_at_255_bytes() {
    let mut fs = fresh();
    let root = fs.root_inode();
    let long = "x".repeat(300);
    root.create(&mut fs, &long, EXT2_S_IFREG).unwrap();
    let names = root.ls(&mut fs).unwrap();
    assert_eq!(names.len(), 3);
    assert_eq!(names[2], "x".repeat(255));
    assert!(root.find(&mut fs, &"x".repeat(255)).is_ok());
}

#[test]
fn many_entries_spill_into_further_directory_blocks() {
    let mut fs = fresh();
    let root = fs.root_inode();
    let mut expected = vec![String::from("."), String::from("..")];
    for i in 0..400 {
        let name = format!("file-number-{:04}", i);
        root.create(&mut fs, &name, EXT2_S_IFREG).unwrap();
        expected.push(name);
    }
    assert!(root.read_disk_inode(&mut fs).i_size as usize > BLOCK_SIZE);
    assert_eq!(root.ls(&mut fs).unwrap(), expected);
    assert_eq!(root.find(&mut fs, "file-number-0399").unwrap().inode_id, 11 + 399);
    assert_counters_consistent(&fs);
}

#[test]
fn unlink_of_a_middle_entry_keeps_the_others() {
    let mut fs = fresh();
    let root = fs.root_inode();
    root.create(&mut fs, "a", EXT2_S_IFREG).unwrap();
    let b = root.create(&mut fs, "b", EXT2_S_IFREG).unwrap();
    root.create(&mut fs, "c", EXT2_S_IFREG).unwrap();
    b.write_at(&mut fs, 0, b"data").unwrap();
    let size = root.read_disk_inode(&mut fs).i_size;
    root.unlink(&mut fs, "b").unwrap();
    assert_eq!(root.ls(&mut fs).unwrap(), vec![".", "..", "a", "c"]);
    assert_eq!(root.read_disk_inode(&mut fs).i_size, size);
    assert!(root.find(&mut fs, "c").is_ok());
    root.unlink(&mut fs, "c").unwrap();
    root.unlink(&mut fs, "a").unwrap();
    assert_eq!(root.ls(&mut fs).unwrap(), vec![".", ".."]);
    assert_counters_consistent(&fs);
}

#[test]
fn link_counts_follow_links() {
    let mut fs = fresh();
    let root = fs.root_inode();
    let f = root.create(&mut fs, "f", EXT2_S_IFREG).unwrap();
    f.increase_nlink(&mut fs, 2).unwrap();
    assert_eq!(f.read_disk_inode(&mut fs).i_links_count, 3);
    f.decrease_nlink(&mut fs, 2).unwrap();
    assert_eq!(f.read_disk_inode(&mut fs).i_links_count, 1);
    assert_eq!(f.decrease_nlink(&mut fs, 2).unwrap_err(), Ext2Error::Corruption);
    let free = fs.super_block.s_free_inodes_count;
    f.decrease_nlink(&mut fs, 1).unwrap();
    assert_eq!(fs.super_block.s_free_inodes_count, free + 1);
}

#[test]
fn lookup_tells_where_an_entry_stands() {
    let mut fs = fresh();
    let root = fs.root_inode();
    root.create(&mut fs, "abc", EXT2_S_IFREG).unwrap();
    let (head, pos, prev) = root.get_inode_id(&mut fs, "abc").unwrap().unwrap();
    assert_eq!((head.inode, head.rec_len, head.name_len, head.file_type), (11, 11, 3, EXT2_FT_REG_FILE));
    // behind "." (9 bytes) and ".." (10 bytes)
    assert_eq!((pos, prev), (2, 9));
    assert!(root.get_inode_id(&mut fs, "abd").unwrap().is_none());
    assert_eq!(root.read_all(&mut fs).unwrap().len(), 9 + 10 + 11);
    assert_eq!(
        root.ls_disk(&mut fs).unwrap(),
        vec![b".".to_vec(), b"..".to_vec(), b"abc".to_vec()]
    );
    assert_eq!(root.find_bytes(&mut fs, b"abc").unwrap().inode_id, 11);
}

#[test]
fn root_directory_of_a_fresh_image() {
    let mut fs = fresh();
    let root = fs.root_inode();
    let inode = root.read_disk_inode(&mut fs);
    assert!(inode.is_dir());
    assert!(!inode.is_file());
    assert_eq!(inode.i_mode, EXT2_S_IFDIR | 0o777);
    assert_eq!(inode.i_links_count, 3);
    assert_eq!(inode.i_size, 19);
    assert_eq!(inode.i_blocks, 8);
    assert_eq!(root.find(&mut fs, ".").unwrap().inode_id, 2);
    assert_eq!(root.find(&mut fs, "..").unwrap().inode_id, 2);
    assert!(fs.super_block.is_valid());
}

#[test]
fn sparse_write_far_behind_the_end() {
    let mut fs = fresh();
    let root = fs.root_inode();
    let f = root.create(&mut fs, "f", EXT2_S_IFREG).unwrap();
    let offset = 1100 * BLOCK_SIZE + 7;
    f.write_at(&mut fs, offset, b"tail").unwrap();
    let mut buf = vec![0u8; 4];
    assert_eq!(f.read_at(&mut fs, offset, &mut buf).unwrap(), 4);
    assert_eq!(buf, b"tail");
    let inode = f.read_disk_inode(&mut fs);
    assert_eq!(inode.i_size as usize, offset + 4);
    // 1101 data blocks, the indirect block, the double indirect block and
    // one indirect block below it
    assert_eq!(inode.i_blocks, (1101 + 3) * 8);
    f.clear(&mut fs).unwrap();
    assert_counters_consistent(&fs);
}

#[test]
fn a_tree_three_directories_deep_gives_back_every_inode() {
    let mut fs = fresh();
    let root = fs.root_inode();
    let free_inodes = fs.super_block.s_free_inodes_count;
    let top = root.create(&mut fs, "top", EXT2_S_IFDIR).unwrap();
    let mut made = vec![top.inode_id];
    for a in ["a", "b", "c"] {
        let mid = top.create(&mut fs, a, EXT2_S_IFDIR).unwrap();
        made.push(mid.inode_id);
        for b in ["x", "y"] {
            let low = mid.create(&mut fs, b, EXT2_S_IFDIR).unwrap();
            made.push(low.inode_id);
            let file = low.create(&mut fs, "leaf", EXT2_S_IFREG).unwrap();
            file.write_at(&mut fs, 0, b"leaf").unwrap();
            made.push(file.inode_id);
        }
        let file = mid.create(&mut fs, "note", EXT2_S_IFREG).unwrap();
        made.push(file.inode_id);
    }
    assert_eq!(made.len(), 1 + 3 * (1 + 2 * 2 + 1));
    assert_eq!(fs.super_block.s_free_inodes_count as usize, free_inodes as usize - made.len());
    assert_eq!(top.read_disk_inode(&mut fs).i_links_count, 2 + 3);
    root.unlink(&mut fs, "top").unwrap();
    assert_eq!(fs.super_block.s_free_inodes_count, free_inodes);
    assert_eq!(root.ls(&mut fs).unwrap(), vec![".", ".."]);
    for id in made {
        let handle = Ext2FileSystem::get_inode(&mut fs, id).unwrap();
        assert_eq!(handle.read_disk_inode(&mut fs).i_links_count, 0);
    }
    assert_counters_consistent(&fs);
}

#[test]
fn a_directory_of_more_than_65535_bytes_is_not_emptied() {
    let mut fs = fresh();
    let root = fs.root_inode();
    let wide = root.create(&mut fs, "wide", EXT2_S_IFDIR).unwrap();
    for i in 0..260 {
        let name = format!("{:0>250}", i);
        wide.create(&mut fs, &name, EXT2_S_IFREG).unwrap();
    }
    assert!(wide.read_disk_inode(&mut fs).i_size > 65535);
    assert_eq!(root.unlink(&mut fs, "wide").unwrap_err(), Ext2Error::Corruption);
    assert!(root.find(&mut fs, "wide").is_ok());
}
