use ext2fs::bitmap::Bitmap;
use ext2fs::block_cache::BlockCacheManager;
use ext2fs::block_map::{blocks_added_by, blocks_needed, locate, span_of};
use ext2fs::codec::{get_bytes, get_u128, get_u16, get_u32, put_bytes, put_u128, put_u16, put_u32, put_u8, zeroed};
use ext2fs::dir::{bytes_eq, find_entry, list_names, make_entry};
use ext2fs::layout::{
    file_code_of_mode, BlockGroupDesc, DirEntryHead, DiskInode, LinuxOSD, SuperBlock, EXT2_FT_BLKDEV,
    EXT2_FT_CHRDEV, EXT2_FT_DIR, EXT2_FT_FIFO, EXT2_FT_REG_FILE, EXT2_FT_SOCK, EXT2_FT_SYMLINK,
    EXT2_FT_UNKNOWN,
};
use ext2fs::mkfs::{count_bits, layout_of, test_bit, ImageLayout};
use ext2fs::vfs::{blocks_of, is_dot_name};
use ext2fs::{Ext2Error, RamDisk, BLOCK_SIZE};

#[test]
fn codec_writes_little_endian() {
    let mut buf = zeroed(32);
    assert_eq!(buf, vec![0u8; 32]);
    put_u16(&mut buf, 1, 0xEF53);
    put_u32(&mut buf, 4, 0x0403_0201);
    put_u8(&mut buf, 9, 0x7F);
    put_u128(&mut buf, 16, 0x0102);
    assert_eq!(&buf[1..3], &[0x53, 0xEF]);
    assert_eq!(&buf[4..8], &[1, 2, 3, 4]);
    assert_eq!(buf[9], 0x7F);
    assert_eq!(&buf[16..19], &[2, 1, 0]);
    assert_eq!(get_u16(&buf, 1), 0xEF53);
    assert_eq!(get_u32(&buf, 4), 0x0403_0201);
    assert_eq!(get_u128(&buf, 16), 0x0102);
    put_bytes(&mut buf, 30, &[8, 9]);
    assert_eq!(get_bytes(&buf, 29, 3), vec![0, 8, 9]);
}

#[test]
fn super_block_stands_where_ext2_puts_it() {
    let sb = SuperBlock::new(32768, 4096, 32758, 3000, 1, "Image by hsh");
    let mut buf = vec![0xAAu8; 1024];
    sb.to_bytes(&mut buf);
    assert_eq!(&buf[0..4], &32768u32.to_le_bytes());
    assert_eq!(&buf[4..8], &4096u32.to_le_bytes());
    assert_eq!(&buf[12..16], &3000u32.to_le_bytes());
    assert_eq!(&buf[16..20], &32758u32.to_le_bytes());
    assert_eq!(&buf[24..28], &2u32.to_le_bytes());
    assert_eq!(&buf[56..58], &[0x53, 0xEF]);
    assert_eq!(&buf[88..90], &128u16.to_le_bytes());
    assert_eq!(&buf[120..132], b"Image by hsh");
    assert_eq!(&buf[132..136], &[0, 0, 0, 0]);
    // what lies between and behind the fields stays
    assert_eq!(buf[136], 0xAA);
    assert_eq!(buf[1023], 0xAA);
    assert_eq!(SuperBlock::from_bytes(&buf), sb);
    assert!(sb.is_valid());
    assert_eq!((sb.s_max_mnt_count, sb.s_state, sb.s_errors, sb.s_first_ino), (32, 1, 2, 11));
}

#[test]
fn group_descriptor_round_trips() {
    let d = BlockGroupDesc::new(33, 34, 35, 3036, 32758, 1);
    let mut buf = vec![0u8; 32];
    d.to_bytes(&mut buf);
    assert_eq!(&buf[0..4], &33u32.to_le_bytes());
    assert_eq!(&buf[8..12], &35u32.to_le_bytes());
    assert_eq!(&buf[12..14], &3036u16.to_le_bytes());
    assert_eq!(&buf[14..16], &32758u16.to_le_bytes());
    assert_eq!(BlockGroupDesc::from_bytes(&buf), d);
}

#[test]
fn disk_inode_keeps_its_block_pointers() {
    let inode = DiskInode::new(0o644, 0x8000, 7, 8);
    assert_eq!(inode.i_mode, 0x8000 | 0o644);
    assert_eq!((inode.i_uid, inode.i_gid, inode.i_links_count, inode.i_size), (7, 8, 1, 0));
    assert_eq!(inode.i_osd2, LinuxOSD::empty());
    assert!(inode.is_file());
    assert!(!inode.is_dir());
    assert_eq!(inode.file_code(), EXT2_FT_REG_FILE);
    let mut buf = vec![0x55u8; 128];
    inode.to_bytes(&mut buf);
    assert_eq!(&buf[0..2], &(0x8000u16 | 0o644).to_le_bytes());
    assert_eq!(&buf[26..28], &1u16.to_le_bytes());
    assert!(buf[40..100].iter().all(|b| *b == 0x55));
    assert_eq!(DiskInode::from_bytes(&buf), inode);
}

#[test]
fn dir_entry_head_cuts_long_names() {
    let head = DirEntryHead::create(12, "abc", EXT2_FT_REG_FILE);
    assert_eq!((head.inode, head.rec_len, head.name_len, head.file_type), (12, 11, 3, 1));
    let long = "y".repeat(256);
    let head = DirEntryHead::create(12, &long, EXT2_FT_DIR);
    assert_eq!((head.rec_len, head.name_len), (263, 255));
    let mut buf = vec![0u8; 8];
    head.to_bytes(&mut buf);
    assert_eq!(DirEntryHead::from_bytes(&buf), head);
    assert_eq!(DirEntryHead::empty().rec_len, 0);
}

#[test]
fn file_codes_mirror_the_mode() {
    assert_eq!(file_code_of_mode(0x8000 | 0o777), EXT2_FT_REG_FILE);
    assert_eq!(file_code_of_mode(0x4000), EXT2_FT_DIR);
    assert_eq!(file_code_of_mode(0x2000), EXT2_FT_CHRDEV);
    assert_eq!(file_code_of_mode(0x6000), EXT2_FT_BLKDEV);
    assert_eq!(file_code_of_mode(0x1000), EXT2_FT_FIFO);
    assert_eq!(file_code_of_mode(0xC000), EXT2_FT_SOCK);
    assert_eq!(file_code_of_mode(0xA000), EXT2_FT_SYMLINK);
    assert_eq!(file_code_of_mode(0x0FFF), EXT2_FT_UNKNOWN);
    assert_eq!(file_code_of_mode(0xE000), EXT2_FT_UNKNOWN);
}

#[test]
fn bitmap_takes_the_lowest_clear_bit() {
    let mut manager = BlockCacheManager::new(RamDisk::new(4), 2);
    let bitmap = Bitmap::new(1, 100);
    assert_eq!(bitmap.allocate(&mut manager), Some(100));
    assert_eq!(bitmap.allocate(&mut manager), Some(101));
    bitmap.range_alloc(&mut manager, 102, 110);
    assert_eq!(bitmap.allocate(&mut manager), Some(110));
    assert!(bitmap.dealloc(&mut manager, 104));
    assert!(!bitmap.dealloc(&mut manager, 104));
    assert_eq!(bitmap.allocate(&mut manager), Some(104));
    let block = manager.read_bytes(1, 0, BLOCK_SIZE);
    assert_eq!(&block[0..2], &[0xFF, 0x07]);
    assert_eq!(count_bits(&block), 11);
    assert!(test_bit(&block, 10));
    assert!(!test_bit(&block, 11));
    // the other blocks are untouched
    assert_eq!(manager.read_bytes(2, 0, 4), vec![0; 4]);
}

#[test]
fn bitmap_that_is_full_hands_out_nothing() {
    let mut manager = BlockCacheManager::new(RamDisk::new(2), 2);
    let bitmap = Bitmap::new(0, 0);
    bitmap.range_alloc(&mut manager, 0, 32768);
    assert_eq!(bitmap.allocate(&mut manager), None);
    assert!(bitmap.dealloc(&mut manager, 32767));
    assert_eq!(bitmap.allocate(&mut manager), Some(32767));
}

#[test]
fn block_map_slots() {
    assert_eq!(locate(0), (0, 0, 0));
    assert_eq!(locate(11), (11, 0, 0));
    assert_eq!(locate(12), (12, 1, 0));
    assert_eq!(locate(12 + 1023), (12, 1, 1023));
    assert_eq!(locate(12 + 1024), (13, 2, 0));
    assert_eq!(locate(12 + 1024 + 1024 * 1024 - 1), (13, 2, 1024 * 1024 - 1));
    assert_eq!(locate(12 + 1024 + 1024 * 1024), (14, 3, 0));
    assert_eq!((span_of(0), span_of(1), span_of(2), span_of(3)), (1, 1024, 1048576, 1073741824));
}

#[test]
fn blocks_that_a_file_takes() {
    assert_eq!(blocks_added_by(0), 1);
    assert_eq!(blocks_added_by(12), 2);
    assert_eq!(blocks_added_by(13), 1);
    assert_eq!(blocks_added_by(1036), 3);
    assert_eq!(blocks_added_by(1037), 1);
    assert_eq!(blocks_added_by(1036 + 1024), 2);
    assert_eq!(blocks_needed(0, 0), 0);
    assert_eq!(blocks_needed(0, 12), 12);
    assert_eq!(blocks_needed(0, 13), 14);
    assert_eq!(blocks_needed(12, 140), 129);
    assert_eq!(blocks_needed(0, 2000), 2003);
    assert_eq!(blocks_needed(1036, 1037), 3);
    assert_eq!(blocks_of(0), 0);
    assert_eq!(blocks_of(1), 1);
    assert_eq!(blocks_of(4096), 1);
    assert_eq!(blocks_of(4097), 2);
    assert_eq!(blocks_of(u32::MAX), 1048576);
}

#[test]
fn layout_of_devices() {
    assert_eq!(
        layout_of(4096),
        Some(ImageLayout { groups: 1, blocks: 4096, last: 4096, desc: 32 })
    );
    assert_eq!(
        layout_of(32768),
        Some(ImageLayout { groups: 1, blocks: 32768, last: 32768, desc: 256 })
    );
    assert_eq!(
        layout_of(32768 + 1026),
        Some(ImageLayout { groups: 1, blocks: 32768, last: 32768, desc: 256 })
    );
    assert_eq!(
        layout_of(2 * 32768 + 5000),
        Some(ImageLayout { groups: 3, blocks: 70536, last: 5000, desc: 552 })
    );
    assert_eq!(layout_of(0), None);
    assert_eq!(layout_of(1026), None);
    // 1 + 9 + 1026 blocks are taken before the first block for data
    assert_eq!(layout_of(1036), None);
    assert_eq!(
        layout_of(1037),
        Some(ImageLayout { groups: 1, blocks: 1037, last: 1037, desc: 9 })
    );
}

#[test]
fn directory_entries_in_raw_bytes() {
    let mut content = make_entry(2, b".", EXT2_FT_DIR);
    assert_eq!(content, vec![2, 0, 0, 0, 9, 0, 1, 2, b'.']);
    content.extend(make_entry(2, b"..", EXT2_FT_DIR));
    content.extend(make_entry(11, b"name", EXT2_FT_REG_FILE));
    assert_eq!(
        list_names(&content).unwrap(),
        vec![b".".to_vec(), b"..".to_vec(), b"name".to_vec()]
    );
    let found = find_entry(&content, b"name").unwrap().unwrap();
    assert_eq!((found.head.inode, found.pos, found.offset, found.prev_offset), (11, 2, 19, 9));
    let found = find_entry(&content, b".").unwrap().unwrap();
    assert_eq!((found.pos, found.offset, found.prev_offset), (0, 0, 0));
    assert!(find_entry(&content, b"nam").unwrap().is_none());
    assert!(find_entry(&[], b"x").unwrap().is_none());
    assert_eq!(list_names(&[]).unwrap(), Vec::<Vec<u8>>::new());
}

#[test]
fn broken_directory_entries_are_told() {
    // an entry that leads nowhere
    let mut content = make_entry(2, b".", EXT2_FT_DIR);
    content[4] = 0;
    content.extend(make_entry(11, b"name", EXT2_FT_REG_FILE));
    assert_eq!(list_names(&content).unwrap_err(), Ext2Error::Corruption);
    assert_eq!(find_entry(&content, b"name").unwrap_err(), Ext2Error::Corruption);
    // a name that runs behind the end
    let mut content = make_entry(11, b"name", EXT2_FT_REG_FILE);
    content[6] = 200;
    assert_eq!(list_names(&content).unwrap_err(), Ext2Error::Corruption);
}

#[test]
fn byte_strings_compare() {
    assert!(bytes_eq(b"abc", b"abc"));
    assert!(!bytes_eq(b"abc", b"abd"));
    assert!(!bytes_eq(b"abc", b"ab"));
    assert!(bytes_eq(b"", b""));
    assert!(is_dot_name(b"."));
    assert!(is_dot_name(b".."));
    assert!(!is_dot_name(b"..."));
    assert!(!is_dot_name(b"a"));
    assert!(!is_dot_name(b""));
}
