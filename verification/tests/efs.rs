use edos_fs::block_device::BlockDevice;
use edos_fs::devfs::device::DevFsDevice;
use edos_fs::efs::bitmap::{clear_bit, find_free_bit, find_free_run, free_run_at, set_bit, set_run, test_bit};
use edos_fs::efs::dirent::{
    build_dir_block, dir_entry_min_size, find_dotdot, find_entry, find_slot, lookup_entry,
    find_prev_entry_len, parse_dir_entries_from_bytes, place_entry, remove_entry,
};
use edos_fs::efs::driver::EfsDriver;
use edos_fs::efs::extents::{BlockRun, ExtentMap};
use edos_fs::efs::layout::{
    checksum_inode, checksum_superblock, encode_bgd, encode_node, read_bgd, read_node_entry,
    read_node_header, EfsBlockGroupDesc, EfsExtent, EfsInode, EfsSuperblock, EFS_MAGIC, FT_DIR,
    FT_REG_FILE, INODE_FLAG_INLINE_DATA, S_IFDIR, S_IFREG,
};
use edos_fs::error::Error;
use edos_fs::filesystem::FileSystem;
use edos_fs::journal::faultinject::JournalCtl;
use edos_fs::journal::layout::build_jsb_block;
use edos_fs::page_cache::{DirtyPage, PageCacheOps};
use edos_fs::path::Path;
use edos_fs::types::{FileKind, FileTime, LinkMode};

const NOW: u64 = 946_684_800;
const BLOCKS: u64 = 512;
const JOURNAL_FIRST: u64 = 10;
const JOURNAL_LEN: u32 = 64;

fn path(s: &str) -> Path {
    Path::parse(s).unwrap()
}

fn superblock() -> EfsSuperblock {
    let mut name = vec![0u8; 64];
    name[..4].copy_from_slice(b"disk");
    let used = JOURNAL_FIRST + JOURNAL_LEN as u64;
    let mut sb = EfsSuperblock {
        magic: EFS_MAGIC,
        version: 1,
        block_size_log2: 12,
        total_blocks: BLOCKS,
        free_blocks: BLOCKS - used,
        total_inodes: 64,
        free_inodes: 62,
        blocks_per_group: BLOCKS as u32,
        inodes_per_group: 64,
        block_group_count: 1,
        incompatible_features: 1,
        journal_first_block: JOURNAL_FIRST,
        last_orphan: 0,
        checksum: 0,
        volume_name: name,
        reserved: vec![0u8; 112],
    };
    checksum_superblock(&mut sb);
    sb
}

/// Boot block, superblock, descriptors, two bitmaps, four blocks of inodes, the root
/// directory, the journal, and free blocks.
fn image() -> Vec<u8> {
    let used = JOURNAL_FIRST as usize + JOURNAL_LEN as usize;
    let mut b = vec![0u8; BLOCKS as usize * 4096];
    let sb = superblock().encode();
    b[4096..4096 + sb.len()].copy_from_slice(&sb);
    let bgd = encode_bgd(&EfsBlockGroupDesc {
        block_bitmap_block: 3,
        inode_bitmap_block: 4,
        inode_table_block: 5,
        free_blocks_count: BLOCKS - used as u64,
        free_inodes_count: 62,
        used_dirs_count: 1,
        reserved0: 0,
        reserved1: 0,
    });
    b[2 * 4096..2 * 4096 + 64].copy_from_slice(&bgd);
    for i in 0..used {
        b[3 * 4096 + i / 8] |= 1 << (i % 8);
    }
    b[4 * 4096] = 3;
    let mut root = EfsInode::new(S_IFDIR | 0o755, (NOW, 0));
    root.size = 4096;
    root.blocks = 1;
    root.link_count = 2;
    root.data_area = encode_node(176, 0, 13, &[EfsExtent::build(0, 1, 9)]);
    checksum_inode(&mut root);
    let r = root.encode();
    b[5 * 4096 + 256..5 * 4096 + 512].copy_from_slice(&r);
    let d = build_dir_block(2, 2);
    b[9 * 4096..10 * 4096].copy_from_slice(&d);
    let j = build_jsb_block(JOURNAL_LEN, 1, 1, 0, 0);
    let at = JOURNAL_FIRST as usize * 4096;
    b[at..at + j.len()].copy_from_slice(&j);
    b
}

fn mount() -> EfsDriver {
    EfsDriver::new(BlockDevice::from_image(1, &image()), 0).unwrap()
}

fn medium(d: &mut EfsDriver) -> Vec<u8> {
    let mut out: Vec<u8> = Vec::new();
    let n = d.device.page_count();
    for i in 0..n {
        out.extend(d.device.home_page(i).unwrap());
    }
    out
}

fn named(fs: &mut EfsDriver, p: &str) -> Vec<String> {
    let all = fs.list_files(&path(p)).unwrap();
    all.into_iter().map(|f| f.name).filter(|n| n != "." && n != "..").collect()
}

fn pattern(n: usize) -> Vec<u8> {
    (0..n).map(|i| (i * 13 % 253) as u8).collect()
}

#[test]
fn efs_write_is_read_back() {
    let mut fs = mount();
    fs.create_file(&path("/a"), NOW).unwrap();
    let data = pattern(20_000);
    assert_eq!(fs.write_bytes(&path("/a"), 5_000, &data, NOW), Ok(25_000));
    assert_eq!(fs.read_bytes(&path("/a"), 5_000, 20_000), Ok(data.clone()));
    assert_eq!(fs.read_bytes(&path("/a"), 0, 5_000), Ok(vec![0u8; 5_000]));
    assert_eq!(fs.file_info(&path("/a")).unwrap().size, 25_000);
    fs.write_bytes(&path("/a"), 10_000, b"middle", NOW).unwrap();
    let all = fs.read_bytes(&path("/a"), 0, 30_000).unwrap();
    assert_eq!(all.len(), 25_000);
    assert_eq!(&all[10_000..10_006], b"middle");
    assert_eq!(&all[10_006..], &data[5_006..]);
    assert_eq!(&all[5_000..10_000], &data[..5_000]);
}

#[test]
fn efs_small_files_stay_inline() {
    let mut fs = mount();
    fs.create_file(&path("/a"), NOW).unwrap();
    fs.write_bytes(&path("/a"), 0, b"short", NOW).unwrap();
    let ino = fs.resolve_inode(&path("/a")).unwrap();
    let i = fs.read_inode(ino).unwrap();
    assert_eq!(i.flags & INODE_FLAG_INLINE_DATA, INODE_FLAG_INLINE_DATA);
    assert_eq!(&i.data_area[..5], b"short");
    fs.write_bytes(&path("/a"), 170, &pattern(20), NOW).unwrap();
    let i = fs.read_inode(ino).unwrap();
    assert_eq!(i.flags & INODE_FLAG_INLINE_DATA, 0);
    let all = fs.read_bytes(&path("/a"), 0, 500).unwrap();
    assert_eq!(all.len(), 190);
    assert_eq!(&all[..5], b"short");
    assert_eq!(&all[170..], &pattern(20)[..]);
}

#[test]
fn efs_created_is_found_and_removed_is_gone() {
    let mut fs = mount();
    fs.create_dir(&path("/d"), NOW).unwrap();
    fs.create_file(&path("/d/f"), NOW).unwrap();
    let f = fs.file_info(&path("/d/f")).unwrap();
    assert_eq!(f.name, "f");
    assert_eq!(f.kind, FileKind::File);
    assert_eq!(f.created, Some(FileTime::from_unix_secs(NOW)));
    assert_eq!(named(&mut fs, "/d").len(), 1);
    assert!(fs.remove_dir(&path("/d"), NOW).is_err());
    fs.remove_file(&path("/d/f"), NOW).unwrap();
    assert_eq!(fs.file_info(&path("/d/f")).err(), Some(Error::FileNotFound));
    fs.remove_dir(&path("/d"), NOW).unwrap();
    assert_eq!(fs.file_info(&path("/d")).err(), Some(Error::FileNotFound));
}

#[test]
fn efs_errors_say_what_is_wrong() {
    let mut fs = mount();
    fs.create_file(&path("/a"), NOW).unwrap();
    let long = format!("/{}", "x".repeat(256));
    assert_eq!(fs.create_file(&path(&long), NOW), Err(Error::InvalidArgument));
    assert_eq!(fs.read_bytes(&path("/b"), 0, 1), Err(Error::FileNotFound));
    assert_eq!(fs.list_files(&path("/a")).err(), Some(Error::NotADir));
}

#[test]
fn efs_directories_grow() {
    let mut fs = mount();
    for i in 0..40 {
        let name = format!("/a-name-that-is-long-enough-to-fill-a-block-of-the-directory-{}", i);
        fs.create_file(&path(&name), NOW).unwrap();
    }
    assert_eq!(named(&mut fs, "/").len(), 40);
    let last = "/a-name-that-is-long-enough-to-fill-a-block-of-the-directory-39";
    assert!(fs.file_info(&path(last)).is_ok());
}

#[test]
fn efs_files_are_renamed() {
    let mut fs = mount();
    fs.create_dir(&path("/d"), NOW).unwrap();
    fs.create_file(&path("/a"), NOW).unwrap();
    fs.write_bytes(&path("/a"), 0, b"x", NOW).unwrap();
    fs.rename(&path("/a"), &path("/d/b"), NOW).unwrap();
    assert_eq!(fs.read_bytes(&path("/d/b"), 0, 1), Ok(b"x".to_vec()));
    assert_eq!(fs.file_info(&path("/a")).err(), Some(Error::FileNotFound));
}

#[test]
fn efs_links_hold_their_target_and_lead_on() {
    let mut fs = mount();
    fs.create_file(&path("/a"), NOW).unwrap();
    fs.symlink("a", &path("/l"), NOW).unwrap();
    assert_eq!(fs.read_link(&path("/l")), Ok("a".to_string()));
    assert_eq!(fs.file_info_nofollow(&path("/l")).unwrap().kind, FileKind::Symlink);
    assert_eq!(fs.read_bytes(&path("/l"), 0, 1), Err(Error::LinkEscape));
    assert_eq!(fs.link_escape(&path("/l"), LinkMode::Follow), Ok(vec!["a".to_string()]));
    fs.create_fifo(&path("/p"), NOW).unwrap();
    assert_eq!(fs.file_info(&path("/p")).unwrap().kind, FileKind::Fifo);
}

#[test]
fn efs_truncation_cuts_and_zeros() {
    let mut fs = mount();
    fs.create_file(&path("/a"), NOW).unwrap();
    fs.write_bytes(&path("/a"), 0, &pattern(9_000), NOW).unwrap();
    fs.truncate(&path("/a"), 0, NOW).unwrap();
    assert_eq!(fs.read_bytes(&path("/a"), 0, 10), Ok(Vec::new()));
    assert_eq!(fs.file_info(&path("/a")).unwrap().size, 0);
}

#[test]
fn efs_truncation_keeps_the_front() {
    let mut fs = mount();
    fs.create_file(&path("/a"), NOW).unwrap();
    fs.write_bytes(&path("/a"), 0, &pattern(50_000), NOW).unwrap();
    let full = fs.statfs().unwrap().free_blocks;
    fs.truncate(&path("/a"), 10_000, NOW).unwrap();
    assert_eq!(fs.read_bytes(&path("/a"), 0, 60_000), Ok(pattern(50_000)[..10_000].to_vec()));
    assert_eq!(fs.statfs().unwrap().free_blocks, full + 10);
    fs.truncate(&path("/a"), 30_000, NOW).unwrap();
    let back = fs.read_bytes(&path("/a"), 0, 60_000).unwrap();
    assert_eq!(back.len(), 30_000);
    assert_eq!(&back[..10_000], &pattern(50_000)[..10_000]);
    assert_eq!(&back[12_288..], &vec![0u8; 30_000 - 12_288][..]);
    fs.create_file(&path("/b"), NOW).unwrap();
    fs.write_bytes(&path("/b"), 0, b"inline", NOW).unwrap();
    fs.truncate(&path("/b"), 5_000, NOW).unwrap();
    assert_eq!(fs.read_bytes(&path("/b"), 0, 7), Ok(b"inline\0".to_vec()));
    fs.truncate(&path("/b"), 2, NOW).unwrap();
    assert_eq!(fs.read_bytes(&path("/b"), 0, 7), Ok(b"in".to_vec()));
}

#[test]
fn efs_new_directories_find_themselves_and_their_parent() {
    let mut fs = mount();
    fs.create_dir(&path("/d"), NOW).unwrap();
    fs.create_dir(&path("/d/e"), NOW).unwrap();
    let root = fs.resolve_inode(&path("/")).unwrap();
    let d = fs.resolve_inode(&path("/d")).unwrap();
    let e = fs.resolve_inode(&path("/d/e")).unwrap();
    assert_eq!(fs.lookup_in_dir(root, b"d"), Ok(Some((d, 2))));
    assert_eq!(fs.lookup_in_dir(d, b"."), Ok(Some((d, 2))));
    assert_eq!(fs.lookup_in_dir(d, b".."), Ok(Some((root, 2))));
    assert_eq!(fs.lookup_in_dir(d, b"e"), Ok(Some((e, 2))));
    assert_eq!(fs.lookup_in_dir(e, b".."), Ok(Some((d, 2))));
    assert_eq!(fs.lookup_in_dir(e, b"x"), Ok(None));
}

#[test]
fn efs_renaming_replaces() {
    let mut fs = mount();
    for (name, data) in [("/a", b"one"), ("/b", b"two"), ("/c", b"six")] {
        fs.create_file(&path(name), NOW).unwrap();
        fs.write_bytes(&path(name), 0, data, NOW).unwrap();
    }
    fs.rename(&path("/a"), &path("/b"), NOW).unwrap();
    assert_eq!(fs.read_bytes(&path("/b"), 0, 3), Ok(b"one".to_vec()));
    assert_eq!(fs.read_bytes(&path("/c"), 0, 3), Ok(b"six".to_vec()));
    assert_eq!(fs.file_info(&path("/a")).err(), Some(Error::FileNotFound));
    let named_b = fs.list_files(&path("/")).unwrap().into_iter().filter(|f| f.name == "b").count();
    assert_eq!(named_b, 1);
    fs.symlink("c", &path("/l"), NOW).unwrap();
    fs.rename(&path("/b"), &path("/l"), NOW).unwrap();
    assert_eq!(fs.read_bytes(&path("/l"), 0, 3), Ok(b"one".to_vec()));
    fs.create_dir(&path("/d"), NOW).unwrap();
    assert_eq!(fs.rename(&path("/l"), &path("/d"), NOW), Err(Error::NotAFile));
}

#[test]
fn efs_space_comes_back() {
    let mut fs = mount();
    let before = fs.statfs().unwrap();
    fs.create_file(&path("/a"), NOW).unwrap();
    fs.write_bytes(&path("/a"), 0, &pattern(50_000), NOW).unwrap();
    let during = fs.statfs().unwrap();
    assert!(during.free_blocks < before.free_blocks);
    assert_eq!(during.free_inodes, before.free_inodes - 1);
    let ino = fs.resolve_inode(&path("/a")).unwrap();
    fs.remove_file(&path("/a"), NOW).unwrap();
    fs.evict_inode(ino).unwrap();
    let after = fs.statfs().unwrap();
    assert_eq!(after.free_blocks, before.free_blocks);
    assert_eq!(after.free_inodes, before.free_inodes);
    assert_eq!(before.fs_type, "efs");
    assert_eq!(&before.volume_name[..4], b"disk");
}

#[test]
fn efs_pages_are_filled_with_what_was_flushed() {
    let mut fs = mount();
    fs.create_file(&path("/a"), NOW).unwrap();
    fs.write_bytes(&path("/a"), 0, &pattern(9_000), NOW).unwrap();
    let ino = fs.resolve_inode(&path("/a")).unwrap();
    let page = vec![5u8; 4096];
    fs.flush_page(ino, 1, &page).unwrap();
    assert_eq!(fs.fill_page(ino, 1), Ok((page.clone(), 4096)));
    let (last, n) = fs.fill_page(ino, 2).unwrap();
    assert_eq!(n, 9_000 - 8_192);
    assert_eq!(&last[..n], &pattern(9_000)[8_192..]);
    assert_eq!(fs.fill_page(ino, 0).unwrap().0, pattern(4096));
    let pages = vec![DirtyPage { index: 0, data: vec![1u8; 4096] }, DirtyPage { index: 2, data: vec![2u8; 4096] }];
    fs.flush_pages_bulk(ino, pages, Some(12_000), NOW).unwrap();
    assert_eq!(fs.file_size_ino(ino), Ok(12_000));
    assert_eq!(fs.fill_page(ino, 0).unwrap().0, vec![1u8; 4096]);
    assert_eq!(fs.fill_page(ino, 1).unwrap().0, page);
}

#[test]
fn efs_prefetching_reads_the_blocks_that_are_mapped() {
    let mut fs = mount();
    fs.create_file(&path("/a"), NOW).unwrap();
    let ino = fs.resolve_inode(&path("/a")).unwrap();
    fs.write_bytes(&path("/a"), 0, &pattern(8_192), NOW).unwrap();
    fs.write_bytes(&path("/a"), 5 * 4_096, &pattern(4_096), NOW).unwrap();
    let plan = fs.submit_prefetch_pages(ino, 0, 6 * 4_096).unwrap().unwrap();
    let pages: Vec<(u64, u32)> = plan.runs.iter().map(|r| (r.page_offset, r.blocks)).collect();
    assert_eq!(pages, vec![(0, 2), (5, 1)]);
    assert_eq!(plan.runs[0].sectors, 16);
    assert_eq!(plan.runs[1].sectors, 8);
    for r in &plan.runs {
        let mut block: Vec<u8> = Vec::new();
        for sector in 0..8 {
            block.extend(fs.device.read_sectors(r.lba + sector, 1).unwrap());
        }
        assert_eq!(block, pattern(4_096));
    }
    assert!(fs.submit_prefetch_pages(ino, 6 * 4_096, 10).unwrap().is_none());
}

#[test]
fn efs_committed_changes_survive_a_crash() {
    let mut fs = mount();
    fs.create_file(&path("/kept"), NOW).unwrap();
    fs.write_bytes(&path("/kept"), 0, b"journal", NOW).unwrap();
    fs.commit().unwrap();
    let crashed = medium(&mut fs);
    let mut again = EfsDriver::new(BlockDevice::from_image(1, &crashed), 0).unwrap();
    assert_eq!(again.read_bytes(&path("/kept"), 0, 7), Ok(b"journal".to_vec()));
}

#[test]
fn efs_uncommitted_changes_do_not_show_after_a_crash() {
    let mut fs = mount();
    fs.create_file(&path("/lost"), NOW).unwrap();
    let crashed = medium(&mut fs);
    let mut again = EfsDriver::new(BlockDevice::from_image(1, &crashed), 0).unwrap();
    assert_eq!(again.file_info(&path("/lost")).err(), Some(Error::FileNotFound));
}

#[test]
fn efs_removed_files_are_on_the_chain_until_evicted() {
    let mut fs = mount();
    fs.create_file(&path("/a"), NOW).unwrap();
    fs.create_file(&path("/b"), NOW).unwrap();
    let a = fs.resolve_inode(&path("/a")).unwrap();
    let b = fs.resolve_inode(&path("/b")).unwrap();
    fs.remove_file(&path("/a"), NOW).unwrap();
    assert_eq!(fs.superblock.last_orphan as u64, a);
    fs.remove_file(&path("/b"), NOW).unwrap();
    assert_eq!(fs.superblock.last_orphan as u64, b);
    assert_eq!(fs.read_inode(b).unwrap().orphan_next as u64, a);
    fs.evict_inode(a).unwrap();
    assert_eq!(fs.read_inode(b).unwrap().orphan_next, 0);
    fs.evict_inode(b).unwrap();
    assert_eq!(fs.superblock.last_orphan, 0);
}

#[test]
fn efs_files_without_a_name_are_reclaimed_after_a_crash() {
    let mut fs = mount();
    fs.create_file(&path("/a"), NOW).unwrap();
    fs.write_bytes(&path("/a"), 0, &pattern(30_000), NOW).unwrap();
    fs.remove_file(&path("/a"), NOW).unwrap();
    fs.flush().unwrap();
    fs.commit().unwrap();
    let crashed = medium(&mut fs);
    let again = EfsDriver::new(BlockDevice::from_image(1, &crashed), 0).unwrap();
    assert_eq!(again.superblock.last_orphan, 0);
    assert_eq!(again.superblock.free_inodes, 62);
    assert_eq!(again.superblock.free_blocks, BLOCKS - JOURNAL_FIRST - JOURNAL_LEN as u64);
}

#[test]
fn efs_flushed_changes_are_home() {
    let mut fs = mount();
    fs.create_file(&path("/a"), NOW).unwrap();
    fs.write_bytes(&path("/a"), 0, &pattern(6_000), NOW).unwrap();
    fs.flush().unwrap();
    let ino = fs.resolve_inode(&path("/a")).unwrap();
    fs.flush_inode(ino).unwrap();
    let copy = medium(&mut fs);
    let mut again = EfsDriver::new(BlockDevice::from_image(1, &copy), 0).unwrap();
    assert_eq!(again.read_bytes(&path("/a"), 0, 6_000), Ok(pattern(6_000)));
}

#[test]
fn efs_mounts_only_what_is_one() {
    let blank = vec![0u8; 64 * 4096];
    assert_eq!(EfsDriver::new(BlockDevice::from_image(1, &blank), 0).err(), Some(Error::InvalidFs));
    let tiny = vec![0u8; 4096];
    assert_eq!(EfsDriver::new(BlockDevice::from_image(1, &tiny), 0).err(), Some(Error::AhciError));
    let mut b = image();
    let at = JOURNAL_FIRST as usize * 4096;
    b[at] = 0;
    assert_eq!(EfsDriver::new(BlockDevice::from_image(1, &b), 0).err(), Some(Error::InvalidFs));
    let b = with_journal(100_000, 1, 5_000);
    assert_eq!(EfsDriver::new(BlockDevice::from_image(1, &b), 0).err(), Some(Error::AhciError));
}

fn with_journal(len: u32, seq: u64, pos: u64) -> Vec<u8> {
    let mut b = image();
    let at = JOURNAL_FIRST as usize * 4096;
    let j = build_jsb_block(len, seq, seq, pos, pos);
    b[at..at + j.len()].copy_from_slice(&j);
    b
}

#[test]
fn efs_mounts_with_a_journal_that_has_no_ring() {
    for len in [0, 1] {
        let mut fs = EfsDriver::new(BlockDevice::from_image(1, &with_journal(len, 1, 0)), 0).unwrap();
        fs.create_file(&path("/a"), NOW).unwrap();
        assert_eq!(named(&mut fs, "/"), vec!["a"]);
        assert_eq!(fs.commit(), Err(Error::IoError));
    }
}

#[test]
fn efs_mounts_with_a_journal_that_goes_past_the_end() {
    let b = with_journal(100_000, 7, 3);
    let mut fs = EfsDriver::new(BlockDevice::from_image(1, &b), 0).unwrap();
    assert_eq!((fs.journal.head_seq, fs.journal.head_block), (7, 3));
    fs.create_file(&path("/a"), NOW).unwrap();
    fs.commit().unwrap();
    let copy = medium(&mut fs);
    let mut again = EfsDriver::new(BlockDevice::from_image(1, &copy), 0).unwrap();
    assert_eq!(named(&mut again, "/"), vec!["a"]);
    assert!(again.journal.head_block > 3);
    let b = with_journal(100_000, 7, 500);
    let mut fs = EfsDriver::new(BlockDevice::from_image(1, &b), 0).unwrap();
    fs.create_file(&path("/a"), NOW).unwrap();
    assert_eq!(fs.commit(), Err(Error::IoError));
}

#[test]
fn efs_file_data_goes_to_the_medium() {
    let mut fs = mount();
    fs.create_file(&path("/a"), NOW).unwrap();
    let ino = fs.resolve_inode(&path("/a")).unwrap();
    fs.update_size(ino, 4096, NOW).unwrap();
    let page = vec![0xA7u8; 4096];
    fs.flush_page(ino, 0, &page).unwrap();
    let n = fs.device.page_count();
    let at: Vec<u64> = (0..n).filter(|i| fs.device.home_page(*i) == Some(page.clone())).collect();
    assert_eq!(at.len(), 1);
    assert!(!fs.device.is_dirty(at[0]));
}

#[test]
fn efs_flush_writes_out_what_is_committed() {
    let mut fs = mount();
    fs.create_file(&path("/a"), NOW).unwrap();
    assert!(fs.device.is_dirty(9));
    fs.commit().unwrap();
    assert!(fs.device.is_dirty(9));
    fs.flush().unwrap();
    assert!(!fs.device.is_dirty(9));
    assert_eq!(fs.device.home_page(9).unwrap(), fs.device.read_page(9).unwrap());
}

#[test]
fn efs_the_journal_starts_where_replay_ended() {
    let b = with_journal(JOURNAL_LEN, 7, 3);
    let fs = EfsDriver::new(BlockDevice::from_image(1, &b), 0).unwrap();
    assert_eq!(fs.journal.cursors(), (7, 7, 3, 3, JOURNAL_LEN as u64 - 1));
}

#[test]
fn efs_the_record_before_a_boundary_is_found() {
    let mut d = vec![0u8; 32];
    d[8] = 16;
    d[24] = 16;
    assert_eq!(find_prev_entry_len(&d, 16, 16), 16);
    assert_eq!(find_prev_entry_len(&d, 32, 16), 16);
    assert_eq!(find_prev_entry_len(&d, 0, 16), 0);
    assert_eq!(find_prev_entry_len(&d, 20, 16), 0);
}

#[test]
fn efs_blocks_run_out() {
    let mut fs = mount();
    let mut taken = 0;
    while fs.alloc_block().is_ok() {
        taken += 1;
    }
    assert_eq!(taken, BLOCKS - JOURNAL_FIRST - JOURNAL_LEN as u64);
    assert_eq!(fs.alloc_block(), Err(Error::IoError));
    fs.free_block(100).unwrap();
    assert_eq!(fs.alloc_block(), Ok(100));
}

#[test]
fn efs_bitmaps() {
    let mut m = vec![0u8; 2];
    set_bit(&mut m, 3);
    assert!(test_bit(&m, 3));
    clear_bit(&mut m, 3);
    assert!(!test_bit(&m, 3));
    set_run(&mut m, 0, 9);
    assert_eq!(m, vec![0xFF, 0x01]);
    assert_eq!(find_free_bit(&m, 16), Some(9));
    assert_eq!(find_free_bit(&m, 9), None);
    assert_eq!(find_free_run(&m, 16, 4), Some((9, 4)));
    assert_eq!(free_run_at(&m, 16, 100, 9), 7);
    assert_eq!(free_run_at(&m, 16, 100, 0), 0);
}

#[test]
fn efs_directory_blocks() {
    let mut d = build_dir_block(5, 2);
    assert_eq!(d.len(), 4096);
    assert_eq!(lookup_entry(&d, b"."), Some((5, FT_DIR)));
    assert_eq!(lookup_entry(&d, b".."), Some((2, FT_DIR)));
    assert!(find_dotdot(&d).is_some());
    let off = find_slot(&d, dir_entry_min_size(4) as usize).unwrap();
    assert!(place_entry(&mut d, off, 77, FT_REG_FILE, b"name"));
    assert_eq!(lookup_entry(&d, b"name"), Some((77, FT_REG_FILE)));
    assert_eq!(parse_dir_entries_from_bytes(&d).len(), 3);
    let (at, prev) = find_entry(&d, b"name").unwrap();
    remove_entry(&mut d, at, prev);
    assert_eq!(lookup_entry(&d, b"name"), None);
    assert_eq!(lookup_entry(&d, b".."), Some((2, FT_DIR)));
}

#[test]
fn efs_extent_maps() {
    let mut m = ExtentMap::from_sorted(Vec::new());
    m.insert(0, 100);
    m.insert(1, 101);
    m.insert(5, 300);
    assert_eq!(m.len(), 2);
    assert_eq!(m.block_count(), 3);
    assert_eq!(m.lookup(1), Some(101));
    assert_eq!(m.lookup(2), None);
    assert!(matches!(m.run_at(0), BlockRun::Mapped { phys: 100, blocks: 2 }));
    assert!(matches!(m.run_at(2), BlockRun::Hole { blocks: Some(3) }));
    assert_eq!(m.goal_for(2), Some(102));
}

#[test]
fn efs_layouts_round_trip() {
    let sb = superblock();
    let b = sb.encode();
    assert_eq!(b.len(), 256);
    assert!(EfsSuperblock::decode(&b).validate());
    assert_eq!(EfsSuperblock::decode(&b).encode(), b);
    let i = EfsInode::new(S_IFREG | 0o644, (NOW, 7));
    let b = i.encode();
    assert_eq!(b.len(), 256);
    assert_eq!(EfsInode::decode(&b, 0).encode(), b);
    assert_eq!(i.file_type_for_dir_entry(), FT_REG_FILE);
    let e = EfsExtent::build(3, 4, 0x1_0000_0005);
    assert_eq!(e.physical_start(), 0x1_0000_0005);
    let n = encode_node(176, 0, 13, &[e]);
    assert!(read_node_header(&n).is_some());
    assert_eq!(read_node_entry(&n, 0).physical_start(), 0x1_0000_0005);
    assert!(read_node_header(&vec![0u8; 11]).is_none());
    let img = image();
    assert_eq!(read_bgd(&img, 2 * 4096).inode_table_block, 5);
}

/// The blocks of the medium that hold exactly this page.
fn found_at(fs: &EfsDriver, page: &[u8]) -> Vec<u64> {
    let n = fs.device.page_count();
    (0..n).filter(|i| fs.device.home_page(*i).unwrap() == page).collect()
}

#[test]
fn efs_pages_flushed_in_bulk_are_on_the_medium() {
    let mut fs = mount();
    fs.create_file(&path("/a"), NOW).unwrap();
    let ino = fs.resolve_inode(&path("/a")).unwrap();
    fs.update_size(ino, 12_288, NOW).unwrap();
    let (one, two) = (vec![0xB1u8; 4096], vec![0xB2u8; 4096]);
    let pages = vec![DirtyPage { index: 0, data: one.clone() }, DirtyPage { index: 2, data: two.clone() }];
    fs.flush_pages_bulk(ino, pages, Some(12_288), NOW).unwrap();
    for page in [one, two] {
        let at = found_at(&fs, &page);
        assert_eq!(at.len(), 1);
        assert!(!fs.device.is_dirty(at[0]));
    }
}

#[test]
fn efs_written_bytes_are_on_the_medium() {
    let mut fs = mount();
    fs.create_file(&path("/a"), NOW).unwrap();
    fs.write_bytes(&path("/a"), 0, &[0xC3u8; 8192], NOW).unwrap();
    let at = found_at(&fs, &[0xC3u8; 4096]);
    assert_eq!(at.len(), 2);
    assert!(at.iter().all(|b| !fs.device.is_dirty(*b)));
}

#[test]
fn efs_mounting_puts_what_is_replayed_on_the_medium() {
    let mut fs = mount();
    fs.create_file(&path("/kept"), NOW).unwrap();
    fs.commit().unwrap();
    let root = fs.device.read_page(9).unwrap();
    let crashed = medium(&mut fs);
    assert_ne!(&crashed[9 * 4096..10 * 4096], &root[..]);
    let again = EfsDriver::new(BlockDevice::from_image(1, &crashed), 0).unwrap();
    assert_eq!(again.device.home_page(9), Some(root));
    assert!(!again.device.is_dirty(9));
}

#[test]
fn efs_a_commit_that_was_cut_short_is_not_replayed() {
    let mut fs = mount();
    fs.create_file(&path("/first"), NOW).unwrap();
    fs.commit().unwrap();
    fs.create_file(&path("/second"), NOW).unwrap();
    fs.commit().unwrap();
    let last = (JOURNAL_FIRST + fs.journal.head_block) as usize;
    let mut crashed = medium(&mut fs);
    let mut whole = EfsDriver::new(BlockDevice::from_image(1, &crashed), 0).unwrap();
    assert_eq!(named(&mut whole, "/"), vec!["first", "second"]);
    crashed[last * 4096..(last + 1) * 4096].fill(0);
    let mut again = EfsDriver::new(BlockDevice::from_image(1, &crashed), 0).unwrap();
    assert_eq!(named(&mut again, "/"), vec!["first"]);
}

#[test]
fn efs_paused_checkpoints_leave_transactions_in_the_ring() {
    let mut fs = mount();
    let mut ctl = JournalCtl::new();
    assert_eq!(ctl.write(0, b"pause\n"), Ok(6));
    ctl.apply(&mut fs.journal);
    fs.create_file(&path("/a"), NOW).unwrap();
    fs.commit().unwrap();
    fs.flush().unwrap();
    assert!(fs.device.is_dirty(9));
    assert_eq!(fs.journal.committed_pending.len(), 1);
    assert!(fs.journal.is_safe_to_flush(9));
    assert!(!fs.journal.checkpoint_tracker.may_flush(9));
    let crashed = medium(&mut fs);
    let mut again = EfsDriver::new(BlockDevice::from_image(1, &crashed), 0).unwrap();
    assert_eq!(named(&mut again, "/"), vec!["a"]);
    assert_eq!(ctl.write(0, b"resume\n"), Ok(7));
    ctl.apply(&mut fs.journal);
    fs.flush().unwrap();
    assert!(!fs.device.is_dirty(9));
    assert_eq!(fs.device.home_page(9), Some(again.device.home_page(9).unwrap()));
}

#[test]
fn efs_paused_journals_fill_up() {
    let mut fs = mount();
    fs.journal.pause_checkpoints(true);
    let mut failed = false;
    for i in 0..JOURNAL_LEN {
        fs.create_file(&path(&format!("/f{i}")), NOW).unwrap();
        if fs.commit().is_err() {
            failed = true;
            break;
        }
    }
    assert!(failed);
    fs.journal.pause_checkpoints(false);
    assert_eq!(fs.commit(), Ok(()));
}

#[test]
fn efs_the_longest_run_stands_in_for_one_that_is_long_enough() {
    // Free: bits 1 and 2, bits 5 to 7, bits 9 to 11, bit 15.
    let map = [0b0001_1001u8, 0b0111_0001u8];
    assert_eq!(find_free_run(&map, 16, 2), Some((1, 2)));
    assert_eq!(find_free_run(&map, 16, 3), Some((5, 3)));
    assert_eq!(find_free_run(&map, 16, 4), Some((5, 3)));
    assert_eq!(find_free_run(&map, 7, 4), Some((1, 2)));
    assert_eq!(find_free_run(&map, 1, 4), None);
}

#[test]
fn efs_blocks_join_the_extent_they_adjoin() {
    let mut m = ExtentMap::from_sorted(vec![EfsExtent::build(0, 32_766, 1_000)]);
    m.insert(32_766, 33_766);
    assert_eq!((m.len(), m.block_count()), (1, 32_767));
    m.insert(32_767, 33_767);
    assert_eq!((m.len(), m.block_count()), (2, 32_768));
    assert_eq!(m.as_slice()[0].length, 32_767);
    assert_eq!(m.lookup(32_767), Some(33_767));
    m.insert(40_000, 5);
    assert_eq!((m.len(), m.block_count()), (3, 32_769));
}

#[test]
fn efs_entries_join_and_leave_the_listing() {
    let d = build_dir_block(2, 2);
    let before = parse_dir_entries_from_bytes(&d).len();
    let mut fs = mount();
    for n in ["x", "y", "z"] {
        fs.create_file(&path(&format!("/{n}")), NOW).unwrap();
    }
    assert_eq!(named(&mut fs, "/").len() + 2, before + 3);
    fs.remove_file(&path("/y"), NOW).unwrap();
    assert_eq!(named(&mut fs, "/"), vec!["x", "z"]);
}
