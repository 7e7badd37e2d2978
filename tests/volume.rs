use easy_fs::bitmap::Bitmap;
use easy_fs::efs::{EasyFileSystem, FsError};
use easy_fs::file::{
    linkat, open_file, unlinkat, OSInode, OpenFlags, StatMode, UserBuffer, CREATE, RDONLY, RDWR,
    TRUNC, WRONLY,
};
use easy_fs::layout::{
    SuperBlock, EFS_MAGIC, blocks_num_needed, data_blocks, dir_entry_bytes, disk_inode_position, parse_dir_entry,
    total_blocks,
};

fn names(fs: &EasyFileSystem) -> Vec<Vec<u8>> {
    fs.ls()
}

fn pattern(len: usize) -> Vec<u8> {
    (0..len).map(|i| (i * 7 + 3) as u8).collect()
}

fn round_trip(len: usize) {
    let mut fs = EasyFileSystem::format(16, 400);
    let id = fs.create(b"data.bin").unwrap();
    let bytes = pattern(len);
    assert_eq!(fs.write_at(id, 0, &bytes), Ok(len));
    let mut buf = vec![0u8; len];
    assert_eq!(fs.read_at(id, 0, &mut buf), len);
    assert_eq!(buf, bytes);
}

#[test]
fn empty_volume_scenario() {
    let mut fs = EasyFileSystem::format(16, 64);
    assert!(names(&fs).is_empty());
    let id = fs.create(b"a.txt").unwrap();
    assert_eq!(names(&fs), vec![b"a.txt".to_vec()]);
    assert_eq!(fs.write_at(id, 0, b"hello"), Ok(5));
    assert_eq!(fs.size_of(id), 5);
    let mut buf = [0u8; 10].to_vec();
    assert_eq!(fs.read_at(id, 0, &mut buf), 5);
    assert_eq!(&buf[..5], b"hello");
}

#[test]
fn round_trip_within_one_block() {
    round_trip(100);
}

#[test]
fn round_trip_across_a_block_boundary() {
    round_trip(700);
}

#[test]
fn round_trip_across_direct_and_indirect() {
    round_trip(28 * 512 + 100);
}

#[test]
fn round_trip_across_indirect_and_double_indirect() {
    round_trip(156 * 512 + 100);
}

#[test]
fn read_past_end_returns_zero() {
    let mut fs = EasyFileSystem::format(4, 16);
    let id = fs.create(b"f").unwrap();
    fs.write_at(id, 0, b"abc").unwrap();
    let mut buf = vec![9u8; 4];
    assert_eq!(fs.read_at(id, 3, &mut buf), 0);
    assert_eq!(fs.read_at(id, 10, &mut buf), 0);
    assert_eq!(buf, vec![9u8; 4]);
    assert_eq!(fs.read_at(id, 1, &mut buf), 2);
    assert_eq!(buf, vec![b'b', b'c', 9, 9]);
}

#[test]
fn write_past_end_grows_to_exact_end() {
    let mut fs = EasyFileSystem::format(4, 64);
    let id = fs.create(b"f").unwrap();
    fs.write_at(id, 0, b"abc").unwrap();
    assert_eq!(fs.write_at(id, 1000, b"xy"), Ok(2));
    assert_eq!(fs.size_of(id), 1002);
    let mut buf = vec![7u8; 1002];
    assert_eq!(fs.read_at(id, 0, &mut buf), 1002);
    assert_eq!(&buf[..3], b"abc");
    assert!(buf[3..1000].iter().all(|b| *b == 0));
    assert_eq!(&buf[1000..], b"xy");
    assert_eq!(fs.write_at(id, 0, b"Z"), Ok(1));
    assert_eq!(fs.size_of(id), 1002);
}

#[test]
fn clear_gives_back_every_block() {
    let mut fs = EasyFileSystem::format(4, 300);
    let id = fs.create(b"big").unwrap();
    let before = fs.free_data_blocks();
    let len = 160 * 512;
    fs.write_at(id, 0, &pattern(len)).unwrap();
    assert_eq!(before - fs.free_data_blocks(), total_blocks(len as u32) as usize);
    fs.clear(id);
    assert_eq!(fs.free_data_blocks(), before);
    assert_eq!(fs.size_of(id), 0);
    assert_eq!(fs.write_at(id, 0, &pattern(len)), Ok(len));
}

#[test]
fn create_existing_name_truncates_in_place() {
    let mut fs = EasyFileSystem::format(8, 64);
    let a = fs.create(b"a").unwrap();
    let b = fs.create(b"b").unwrap();
    assert_ne!(a, b);
    assert_eq!(fs.ls().len(), fs.size_of(0) / 32);
    assert_eq!(fs.inode_slots(), 8);
    fs.write_at(a, 0, b"content").unwrap();
    let again = fs.create(b"a").unwrap();
    assert_eq!(again, a);
    assert_eq!(fs.size_of(a), 0);
    assert_eq!(names(&fs), vec![b"a".to_vec(), b"b".to_vec()]);
    assert_eq!(fs.size_of(0), 64);
}

#[test]
fn link_shares_the_inode() {
    let mut fs = EasyFileSystem::format(8, 64);
    let a = fs.create(b"a").unwrap();
    assert_eq!(fs.nlink_of(a), 1);
    assert_eq!(fs.link(b"a", b"b"), Ok(()));
    assert_eq!(fs.find(b"b"), Some(a));
    assert_eq!(fs.find(b"a"), Some(a));
    assert_eq!(fs.nlink_of(a), 2);
    assert_eq!(fs.link(b"a", b"a"), Err(FsError::SameName));
    assert_eq!(fs.link(b"missing", b"c"), Err(FsError::NotFound));
    assert_eq!(fs.link(b"a", b""), Err(FsError::InvalidName));
}

#[test]
fn unlink_blanks_the_entry() {
    let mut fs = EasyFileSystem::format(8, 64);
    let a = fs.create(b"a").unwrap();
    fs.write_at(a, 0, b"abc").unwrap();
    fs.link(b"a", b"b").unwrap();
    assert_eq!(fs.unlink(b"b"), Ok(()));
    assert_eq!(fs.nlink_of(a), 1);
    assert_eq!(names(&fs), vec![b"a".to_vec()]);
    assert_eq!(fs.size_of(a), 3);
    let free = fs.free_data_blocks();
    assert_eq!(fs.unlink(b"a"), Ok(()));
    assert_eq!(fs.nlink_of(a), 0);
    assert_eq!(fs.size_of(a), 0);
    assert_eq!(fs.free_data_blocks(), free + 1);
    assert!(names(&fs).is_empty());
    assert_eq!(fs.find(b"a"), None);
    assert_eq!(fs.unlink(b"a"), Err(FsError::NotFound));
}

#[test]
fn exhausting_the_data_area() {
    let mut fs = EasyFileSystem::format(4, 11);
    let id = fs.create(b"f").unwrap();
    assert_eq!(fs.free_data_blocks(), 10);
    assert_eq!(fs.write_at(id, 0, &pattern(10 * 512)), Ok(10 * 512));
    assert_eq!(fs.free_data_blocks(), 0);
    assert_eq!(fs.write_at(id, 10 * 512, b"x"), Err(FsError::ResourceExhausted));
    assert_eq!(fs.size_of(id), 10 * 512);
    let mut buf = vec![0u8; 10 * 512];
    fs.read_at(id, 0, &mut buf);
    assert_eq!(buf, pattern(10 * 512));
    fs.clear(id);
    assert_eq!(fs.free_data_blocks(), 10);
}

#[test]
fn exhausting_the_inodes() {
    let mut fs = EasyFileSystem::format(2, 16);
    assert!(fs.create(b"one").is_ok());
    assert_eq!(fs.create(b"two"), Err(FsError::ResourceExhausted));
    assert_eq!(names(&fs), vec![b"one".to_vec()]);
}

#[test]
fn names_are_checked() {
    let mut fs = EasyFileSystem::format(4, 16);
    assert_eq!(fs.create(b""), Err(FsError::InvalidName));
    assert_eq!(fs.create(&[b'x'; 28]), Err(FsError::InvalidName));
    assert_eq!(fs.create(b"a\0b"), Err(FsError::InvalidName));
    assert!(fs.create(&[b'x'; 27]).is_ok());
    assert_eq!(names(&fs), vec![vec![b'x'; 27]]);
}

#[test]
fn block_counts() {
    assert_eq!(data_blocks(0), 0);
    assert_eq!(data_blocks(1), 1);
    assert_eq!(data_blocks(513), 2);
    assert_eq!(total_blocks(28 * 512), 28);
    assert_eq!(total_blocks(28 * 512 + 1), 30);
    assert_eq!(total_blocks(156 * 512), 157);
    assert_eq!(total_blocks(156 * 512 + 1), 160);
    assert_eq!(total_blocks(284 * 512 + 1), 289);
    assert_eq!(blocks_num_needed(28 * 512, 28 * 512 + 1), 2);
}

#[test]
fn inode_positions() {
    assert_eq!(disk_inode_position(2, 0), (2, 0));
    assert_eq!(disk_inode_position(2, 5), (3, 128));
    assert_eq!(disk_inode_position(2, 7), (3, 384));
}

#[test]
fn directory_entry_format() {
    let rec = dir_entry_bytes(b"abc", 0x01020304);
    assert_eq!(rec.len(), 32);
    assert_eq!(&rec[..4], &[b'a', b'b', b'c', 0]);
    assert_eq!(&rec[28..], &[4, 3, 2, 1]);
    let (name, ino) = parse_dir_entry(&rec, 0);
    assert_eq!(name, b"abc".to_vec());
    assert_eq!(ino, 0x01020304);
}

#[test]
fn bitmap_takes_lowest_free() {
    let mut bm = Bitmap::new(3);
    assert_eq!(bm.allocate(), Some(0));
    assert_eq!(bm.allocate(), Some(1));
    bm.deallocate(0);
    assert_eq!(bm.free_count(), 2);
    assert_eq!(bm.allocate(), Some(0));
    assert_eq!(bm.allocate(), Some(2));
    assert_eq!(bm.allocate(), None);
    assert!(bm.is_set(1));
}

#[test]
fn open_flag_permissions() {
    assert_eq!(OpenFlags::from_bits(RDONLY).read_write(), (true, false));
    assert_eq!(OpenFlags::from_bits(WRONLY).read_write(), (false, true));
    assert_eq!(OpenFlags::from_bits(RDWR).read_write(), (true, true));
    assert_eq!(OpenFlags::from_bits(CREATE | WRONLY).read_write(), (false, true));
    assert_eq!(OpenFlags::from_bits(CREATE).read_write(), (true, true));
}

#[test]
fn open_create_and_truncate() {
    let mut fs = EasyFileSystem::format(8, 64);
    assert!(open_file(&mut fs, b"x", OpenFlags::from_bits(RDONLY)).is_none());
    let mut f = open_file(&mut fs, b"x", OpenFlags::from_bits(CREATE | RDWR)).unwrap();
    assert!(f.readable() && f.writable());
    assert_eq!(f.write_from(&mut fs, b"hello "), Ok(6));
    assert_eq!(f.write_from(&mut fs, b"world"), Ok(5));
    assert_eq!(f.offset(), 11);
    let mut g = open_file(&mut fs, b"x", OpenFlags::from_bits(RDONLY)).unwrap();
    assert_eq!(g.read_all(&fs), b"hello world".to_vec());
    let mut h = OSInode::new(true, false, g.inode_id());
    let mut buf = vec![0u8; 5];
    assert_eq!(h.read_into(&fs, &mut buf), 5);
    assert_eq!(h.read_into(&fs, &mut buf), 5);
    assert_eq!(buf, b" worl".to_vec());
    assert_eq!(h.offset(), 10);
    let t = open_file(&mut fs, b"x", OpenFlags::from_bits(TRUNC | WRONLY)).unwrap();
    assert_eq!(t.inode_id(), g.inode_id());
    assert_eq!(fs.size_of(t.inode_id()), 0);
    assert_eq!(g.read_all(&fs), Vec::<u8>::new());
}

#[test]
fn syscall_link_and_unlink() {
    let mut fs = EasyFileSystem::format(8, 64);
    fs.create(b"a").unwrap();
    assert_eq!(linkat(&mut fs, b"a", b"a"), -1);
    assert_eq!(linkat(&mut fs, b"nope", b"b"), -1);
    assert_eq!(linkat(&mut fs, b"a", b"b"), 0);
    let f = open_file(&mut fs, b"b", OpenFlags::from_bits(RDONLY)).unwrap();
    let st = f.stat(&fs);
    assert_eq!(st.nlink, 2);
    assert_eq!(st.mode, StatMode::File);
    assert_eq!(unlinkat(&mut fs, b"b"), 0);
    assert_eq!(unlinkat(&mut fs, b"b"), -1);
    assert_eq!(f.stat(&fs).nlink, 1);
}

#[test]
fn stat_reports_the_record_address() {
    let mut fs = EasyFileSystem::format(8, 64);
    let id = fs.create(b"a").unwrap();
    let f = OSInode::new(true, true, id);
    let st = f.stat(&fs);
    let (block, offset) = disk_inode_position(fs.inode_area_start(), id);
    assert_eq!(st.dev, block as u64);
    assert_eq!(st.ino, offset as u64);
    assert_eq!(OSInode::new(true, false, 0).stat(&fs).mode, StatMode::Dir);
}

#[test]
fn unlink_dropping_last_loses_the_last_record() {
    let mut fs = EasyFileSystem::format(8, 64);
    let a = fs.create(b"a").unwrap();
    fs.create(b"b").unwrap();
    fs.write_at(a, 0, b"data").unwrap();
    assert_eq!(fs.unlink_dropping_last(b"a"), Ok(()));
    assert_eq!(names(&fs), vec![b"a".to_vec()]);
    assert_eq!(fs.find(b"a"), Some(a));
    assert_eq!(fs.find(b"b"), None);
    assert_eq!(fs.size_of(a), 0);
    assert_eq!(fs.size_of(0), 32);
    assert_eq!(fs.unlink_dropping_last(b"b"), Err(FsError::NotFound));
}

#[test]
fn unlink_dropping_last_with_links_blanks_the_entry() {
    let mut fs = EasyFileSystem::format(8, 64);
    let a = fs.create(b"a").unwrap();
    fs.link(b"a", b"c").unwrap();
    assert_eq!(fs.unlink_dropping_last(b"c"), Ok(()));
    assert_eq!(fs.nlink_of(a), 1);
    assert_eq!(names(&fs), vec![b"a".to_vec()]);
    assert_eq!(fs.size_of(0), 64);
}

#[test]
fn gathered_write_and_scattered_read() {
    let mut fs = EasyFileSystem::format(8, 64);
    let mut w = open_file(&mut fs, b"v", OpenFlags::from_bits(CREATE | RDWR)).unwrap();
    let src = UserBuffer::new(vec![b"ab".to_vec(), Vec::new(), b"cde".to_vec()]);
    assert_eq!(w.write(&mut fs, &src), Ok(5));
    assert_eq!(w.offset(), 5);
    assert_eq!(fs.size_of(w.inode_id()), 5);
    let mut r = open_file(&mut fs, b"v", OpenFlags::from_bits(RDONLY)).unwrap();
    let mut dst = UserBuffer::new(vec![vec![0u8; 3], vec![9u8; 4]]);
    assert_eq!(r.read(&fs, &mut dst), 5);
    assert_eq!(dst.buffers[0], b"abc".to_vec());
    assert_eq!(dst.buffers[1], vec![b'd', b'e', 9, 9]);
    assert_eq!(r.offset(), 5);
    assert_eq!(r.read(&fs, &mut dst), 0);
}

#[test]
fn gathered_write_fails_whole_when_blocks_run_out() {
    let mut fs = EasyFileSystem::format(4, 3);
    let mut w = open_file(&mut fs, b"v", OpenFlags::from_bits(CREATE | WRONLY)).unwrap();
    let src = UserBuffer::new(vec![vec![1u8; 512], vec![2u8; 513]]);
    assert_eq!(w.write(&mut fs, &src), Err(FsError::ResourceExhausted));
    assert_eq!(fs.size_of(w.inode_id()), 0);
    assert_eq!(w.offset(), 0);
    assert_eq!(fs.free_data_blocks(), 2);
}

#[test]
fn superblock_region_split() {
    let sb = SuperBlock::layout(4096, 1).unwrap();
    assert_eq!(sb.magic, EFS_MAGIC);
    assert!(sb.is_valid());
    assert_eq!(sb.inode_area_blocks, 1024);
    assert_eq!(sb.data_bitmap_blocks, 1);
    assert_eq!(sb.data_area_blocks, 3069);
    assert_eq!(sb.inode_count(), 4096);
    assert_eq!(SuperBlock::layout(1000, 1), None);
    let fs = EasyFileSystem::create_volume(4096, 1).unwrap();
    assert_eq!(fs.inode_slots(), 4096);
    assert_eq!(fs.free_data_blocks(), 3069);
    assert_eq!(fs.inode_area_start(), 2);
    assert!(fs.ls().is_empty());
    assert!(EasyFileSystem::create_volume(1000, 1).is_none());
}

#[test]
fn open_with_create_truncates_and_frees() {
    let mut fs = EasyFileSystem::format(8, 64);
    let mut w = open_file(&mut fs, b"a.txt", OpenFlags::from_bits(CREATE | RDWR)).unwrap();
    assert_eq!(names(&fs), vec![b"a.txt".to_vec()]);
    assert_eq!(fs.nlink_of(w.inode_id()), 1);
    let free = fs.free_data_blocks();
    assert_eq!(w.write(&mut fs, &UserBuffer::new(vec![b"hello".to_vec()])), Ok(5));
    assert_eq!(fs.free_data_blocks(), free - 1);
    let again = open_file(&mut fs, b"a.txt", OpenFlags::from_bits(CREATE | WRONLY)).unwrap();
    assert_eq!(again.inode_id(), w.inode_id());
    assert_eq!(fs.size_of(again.inode_id()), 0);
    assert_eq!(fs.free_data_blocks(), free);
    assert_eq!(fs.nlink_of(again.inode_id()), 1);
    assert_eq!(names(&fs), vec![b"a.txt".to_vec()]);
}

#[test]
fn syscall_unlink_frees_on_last_link() {
    let mut fs = EasyFileSystem::format(8, 64);
    let mut w = open_file(&mut fs, b"a", OpenFlags::from_bits(CREATE | RDWR)).unwrap();
    w.write_from(&mut fs, b"payload").unwrap();
    assert_eq!(linkat(&mut fs, b"a", b"b"), 0);
    assert_eq!(fs.size_of(w.inode_id()), 7);
    let free = fs.free_data_blocks();
    assert_eq!(unlinkat(&mut fs, b"a"), 0);
    assert_eq!(fs.nlink_of(w.inode_id()), 1);
    assert_eq!(fs.size_of(w.inode_id()), 7);
    assert_eq!(fs.size_of(0), 64);
    assert_eq!(unlinkat(&mut fs, b"b"), 0);
    assert_eq!(fs.nlink_of(w.inode_id()), 1);
    assert_eq!(fs.size_of(w.inode_id()), 0);
    assert_eq!(fs.size_of(0), 32);
    assert_eq!(fs.free_data_blocks(), free + 1);
    assert!(names(&fs).is_empty());
    assert_eq!(unlinkat(&mut fs, b"b"), -1);
}

#[test]
fn syscall_unlink_of_last_record_drops_it() {
    let mut fs = EasyFileSystem::format(8, 64);
    fs.create(b"a").unwrap();
    let b = fs.create(b"b").unwrap();
    fs.write_at(b, 0, b"xyz").unwrap();
    let free = fs.free_data_blocks();
    assert_eq!(unlinkat(&mut fs, b"b"), 0);
    assert_eq!(names(&fs), vec![b"a".to_vec()]);
    assert_eq!(fs.find(b"b"), None);
    assert_eq!(fs.size_of(0), 32);
    assert_eq!(fs.size_of(b), 0);
    assert_eq!(fs.free_data_blocks(), free + 1);
}
