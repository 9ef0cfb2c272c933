use edos_fs::block_device::BlockDevice;
use edos_fs::error::Error;
use edos_fs::fat32::driver::Fatfs;
use edos_fs::fat32::entry::{build_lfn_entries, DirectoryEntry, LongFilenameEntry};
use edos_fs::fat32::names::sanitize_short_component;
use edos_fs::fat32::ops::{fat_ino_from_pos, split_fat_ino};
use edos_fs::fat32::structures::{Fat32BootSector, FatVariant, FsInfo};
use edos_fs::filesystem::FileSystem;
use edos_fs::page_cache::PageCacheOps;
use edos_fs::path::Path;
use edos_fs::types::FileKind;

const NOW: u64 = 946_684_800;

fn path(s: &str) -> Path {
    Path::parse(s).unwrap()
}

fn put16(b: &mut [u8], off: usize, v: u16) {
    b[off..off + 2].copy_from_slice(&v.to_le_bytes());
}

fn put32(b: &mut [u8], off: usize, v: u32) {
    b[off..off + 4].copy_from_slice(&v.to_le_bytes());
}

/// One FAT of one sector, 16 root entries, clusters of one sector.
fn fat12_image() -> Vec<u8> {
    let mut b = vec![0u8; 128 * 512];
    put16(&mut b, 11, 512);
    b[13] = 1;
    put16(&mut b, 14, 1);
    b[16] = 2;
    put16(&mut b, 17, 16);
    put16(&mut b, 19, 128);
    put16(&mut b, 22, 1);
    b[71..82].copy_from_slice(b"LABEL      ");
    b[512..515].copy_from_slice(&[0xF8, 0xFF, 0xFF]);
    b[1024..1027].copy_from_slice(&[0xF8, 0xFF, 0xFF]);
    b
}

fn fat16_image() -> Vec<u8> {
    let mut b = vec![0u8; 8192 * 512];
    put16(&mut b, 11, 512);
    b[13] = 1;
    put16(&mut b, 14, 1);
    b[16] = 2;
    put16(&mut b, 17, 64);
    put16(&mut b, 19, 8192);
    put16(&mut b, 22, 32);
    put16(&mut b, 512, 0xFFF8);
    put16(&mut b, 514, 0xFFFF);
    b
}

fn fat32_image() -> Vec<u8> {
    let sectors: usize = 67_000;
    let fat: u32 = 524;
    let mut b = vec![0u8; sectors * 512];
    put16(&mut b, 11, 512);
    b[13] = 1;
    put16(&mut b, 14, 32);
    b[16] = 1;
    put32(&mut b, 32, sectors as u32);
    put32(&mut b, 36, fat);
    put32(&mut b, 44, 2);
    put16(&mut b, 48, 1);
    b[66] = 0x29;
    b[71..82].copy_from_slice(b"BIG        ");
    b[82..90].copy_from_slice(b"FAT32   ");
    let info = FsInfo::new().encode();
    b[512..1024].copy_from_slice(&info);
    let f = 32 * 512;
    put32(&mut b, f, 0x0FFF_FFF8);
    put32(&mut b, f + 4, 0x0FFF_FFFF);
    put32(&mut b, f + 8, 0x0FFF_FFF8);
    b
}

fn mount(image: &[u8]) -> Fatfs {
    let sectors = image.len() as u64 / 512;
    Fatfs::new(BlockDevice::from_image(1, image), 0, sectors).unwrap()
}

fn pattern(n: usize) -> Vec<u8> {
    (0..n).map(|i| (i * 7 % 251) as u8).collect()
}

fn write_and_read(fs: &mut Fatfs) {
    fs.create_file(&path("/hello.txt"), NOW).unwrap();
    let data = pattern(3000);
    assert_eq!(fs.write_bytes(&path("/hello.txt"), 100, &data, NOW), Ok(3000));
    assert_eq!(fs.read_bytes(&path("/hello.txt"), 100, 3000), Ok(data.clone()));
    assert_eq!(fs.read_bytes(&path("/hello.txt"), 3000, 500), Ok(data[2900..].to_vec()));
    assert_eq!(fs.file_info(&path("/hello.txt")).unwrap().size, 3100);
    fs.write_bytes(&path("/hello.txt"), 600, b"middle", NOW).unwrap();
    let all = fs.read_bytes(&path("/hello.txt"), 0, 4000).unwrap();
    assert_eq!(all.len(), 3100);
    assert_eq!(&all[600..606], b"middle");
    assert_eq!(&all[100..600], &data[..500]);
    assert_eq!(&all[606..], &data[506..]);
    assert_eq!(fs.read_bytes(&path("/hello.txt"), 3100, 10), Ok(Vec::new()));
}

#[test]
fn fat12_write_is_read_back() {
    let mut fs = mount(&fat12_image());
    assert!(fs.variant == FatVariant::Fat12);
    write_and_read(&mut fs);
}

#[test]
fn fat16_write_is_read_back() {
    let mut fs = mount(&fat16_image());
    assert!(fs.variant == FatVariant::Fat16);
    write_and_read(&mut fs);
}

#[test]
fn fat32_write_is_read_back() {
    let mut fs = mount(&fat32_image());
    assert!(fs.variant == FatVariant::Fat32);
    write_and_read(&mut fs);
}

#[test]
fn fat_writes_leave_other_files_alone() {
    let mut fs = mount(&fat16_image());
    fs.create_file(&path("/a"), NOW).unwrap();
    fs.create_file(&path("/b"), NOW).unwrap();
    let one = pattern(1500);
    fs.write_bytes(&path("/a"), 0, &one, NOW).unwrap();
    fs.write_bytes(&path("/b"), 0, &vec![9u8; 2000], NOW).unwrap();
    fs.write_bytes(&path("/a"), 1500, b"more", NOW).unwrap();
    assert_eq!(fs.read_bytes(&path("/a"), 0, 1500), Ok(one));
    assert_eq!(fs.read_bytes(&path("/a"), 1500, 9), Ok(b"more".to_vec()));
    assert_eq!(fs.read_bytes(&path("/b"), 0, 3000), Ok(vec![9u8; 2000]));
}

#[test]
fn fat_entries_are_set_and_read() {
    for image in [fat12_image(), fat16_image()] {
        let mut fs = mount(&image);
        let eof = fs.eof_value();
        fs.set_fat_value(5, 6).unwrap();
        fs.set_fat_value(6, 7).unwrap();
        fs.set_fat_value(7, eof).unwrap();
        assert_eq!(fs.get_fat_entry(5), Ok(Some(6)));
        assert_eq!(fs.get_fat_entry(6), Ok(Some(7)));
        assert_eq!(fs.get_fat_entry(7), Ok(None));
        assert_eq!(fs.analyze_cluster_chain(5), Ok(vec![(5, 3)]));
        assert_eq!(fs.cluster_at_index(5, 2), Ok(Some(7)));
        assert_eq!(fs.cluster_at_index(5, 3), Ok(None));
    }
}

#[test]
fn fat_entries_of_twelve_bits_share_bytes() {
    let mut fs = mount(&fat12_image());
    fs.set_fat_value(2, 0xABC).unwrap();
    fs.set_fat_value(3, 0x123).unwrap();
    let s = fs.read_disk_sectors(1, 1).unwrap();
    assert_eq!(&s[3..6], &[0xBC, 0x3A, 0x12]);
    let t = fs.read_disk_sectors(2, 1).unwrap();
    assert_eq!(s, t);
}

#[test]
fn fat_bad_clusters_are_errors() {
    let mut fs = mount(&fat16_image());
    fs.set_fat_value(9, 0xFFF7).unwrap();
    assert_eq!(fs.get_fat_entry(9), Err(Error::IoError));
}

#[test]
fn fat_chains_that_loop_are_corrupt() {
    let mut fs = mount(&fat12_image());
    fs.set_fat_value(5, 6).unwrap();
    fs.set_fat_value(6, 5).unwrap();
    assert_eq!(fs.analyze_cluster_chain(5), Err(Error::Corrupted));
    assert_eq!(fs.cluster_at_index(5, 3), Err(Error::Corrupted));
}

#[test]
fn fat_clusters_are_taken_linked_and_freed() {
    let mut fs = mount(&fat16_image());
    let a = fs.alloc_cluster().unwrap();
    let b = fs.alloc_cluster().unwrap();
    assert_eq!((a, b), (2, 3));
    fs.link_fat_entry(a, b).unwrap();
    assert_eq!(fs.get_fat_entry(a), Ok(Some(b)));
    assert_eq!(fs.get_fat_entry(b), Ok(None));
    assert_eq!(fs.free_cluster_chain(a), Ok(2));
    assert_eq!(fs.alloc_cluster(), Ok(2));
}

#[test]
fn fat_volumes_run_out_of_space() {
    let mut image = fat12_image();
    for i in 3..512 {
        image[512 + i] = 0xFF;
    }
    let mut fs = mount(&image);
    assert_eq!(fs.alloc_cluster(), Err(Error::NoSpace));
    fs.create_file(&path("/a"), NOW).unwrap();
    assert_eq!(fs.write_bytes(&path("/a"), 0, b"x", NOW), Err(Error::NoSpace));
}

#[test]
fn fat_directories_are_made_and_removed() {
    let mut fs = mount(&fat16_image());
    fs.create_dir(&path("/dir"), NOW).unwrap();
    fs.create_file(&path("/dir/file"), NOW).unwrap();
    let names: Vec<String> = fs
        .list_files(&path("/dir"))
        .unwrap()
        .into_iter()
        .map(|f| f.name)
        .filter(|n| n != "." && n != "..")
        .collect();
    assert_eq!(names.len(), 1);
    assert!(names[0].eq_ignore_ascii_case("file"));
    assert_eq!(fs.file_info(&path("/dir")).unwrap().kind, FileKind::Directory);
    assert!(fs.remove_dir(&path("/dir"), NOW).is_err());
    fs.remove_file(&path("/dir/file"), NOW).unwrap();
    assert_eq!(fs.file_info(&path("/dir/file")).err(), Some(Error::FileNotFound));
    fs.remove_dir(&path("/dir"), NOW).unwrap();
    assert_eq!(fs.list_files(&path("/dir")).err(), Some(Error::FileNotFound));
}

#[test]
fn fat_errors_say_what_is_wrong() {
    let mut fs = mount(&fat16_image());
    fs.create_dir(&path("/d"), NOW).unwrap();
    assert_eq!(fs.read_bytes(&path("/none"), 0, 1), Err(Error::FileNotFound));
    assert_eq!(fs.read_bytes(&path("/d"), 0, 1), Err(Error::NotAFile));
    assert_eq!(fs.write_bytes(&path("/d"), 0, b"x", NOW), Err(Error::NotAFile));
    assert_eq!(fs.write_bytes(&path("/none"), 0, b"x", NOW), Err(Error::FileNotFound));
    assert_eq!(fs.write_bytes(&path("/none"), 0, b"", NOW), Ok(0));
    assert_eq!(fs.create_file(&path("/"), NOW), Err(Error::NotADir));
}

#[test]
fn fat_files_are_renamed_and_cut() {
    let mut fs = mount(&fat16_image());
    fs.create_file(&path("/a.txt"), NOW).unwrap();
    let data = pattern(1200);
    fs.write_bytes(&path("/a.txt"), 0, &data, NOW).unwrap();
    fs.rename(&path("/a.txt"), &path("/b.txt"), NOW).unwrap();
    assert_eq!(fs.read_bytes(&path("/b.txt"), 0, 1200), Ok(data.clone()));
    assert_eq!(fs.file_info(&path("/a.txt")).err(), Some(Error::FileNotFound));
    fs.truncate(&path("/b.txt"), 700, NOW).unwrap();
    assert_eq!(fs.file_info(&path("/b.txt")).unwrap().size, 700);
    assert_eq!(fs.read_bytes(&path("/b.txt"), 0, 1200), Ok(data[..700].to_vec()));
    fs.truncate(&path("/b.txt"), 0, NOW).unwrap();
    assert_eq!(fs.file_info(&path("/b.txt")).unwrap().size, 0);
}

#[test]
fn fat_long_names_make_short_ones() {
    let mut fs = mount(&fat16_image());
    fs.create_file(&path("/a long name.text"), NOW).unwrap();
    let names: Vec<String> = fs.list_files(&path("/")).unwrap().into_iter().map(|f| f.name).collect();
    assert_eq!(names.len(), 1);
    assert!(names[0].contains('~'));
    let (short, long) = fs.generate_short_name(0, "plain.txt").unwrap();
    assert!(!long);
    assert!(short.eq_ignore_ascii_case("plain.txt"));
}

#[test]
fn fat_pages_are_filled_with_what_was_flushed() {
    let mut fs = mount(&fat32_image());
    fs.create_file(&path("/f"), NOW).unwrap();
    let ino = fs.resolve_inode(&path("/f")).unwrap();
    assert_eq!(fs.file_size_ino_fat32(ino), Ok(0));
    fs.update_size(ino, 10_000, NOW).unwrap();
    assert_eq!(fs.file_size_ino_fat32(ino), Ok(10_000));
    let page = pattern(4096);
    fs.flush_page(ino, 2, &page).unwrap();
    let (got, n) = fs.fill_page(ino, 2).unwrap();
    assert_eq!(n, 10_000 - 8192);
    assert_eq!(&got[..n], &page[..n]);
    assert!(got[n..].iter().all(|b| *b == 0));
    fs.flush_page(ino, 0, &page).unwrap();
    assert_eq!(fs.fill_page(ino, 0), Ok((page.clone(), 4096)));
    assert_eq!(fs.fill_page(ino, 2).unwrap().0, got);
    assert_eq!(fs.fill_page(12345, 0).err(), Some(Error::FileNotFound));
    assert_eq!(fs.update_size(ino, 0x1_0000_0000, NOW), Err(Error::IoError));
}

#[test]
fn fat_removed_files_live_until_evicted() {
    let mut fs = mount(&fat32_image());
    fs.create_file(&path("/f"), NOW).unwrap();
    fs.write_bytes(&path("/f"), 0, b"data", NOW).unwrap();
    let ino = fs.resolve_inode(&path("/f")).unwrap();
    let e = fs.lookup_inode_entry(ino).unwrap();
    fs.remove_file(&path("/f"), NOW).unwrap();
    assert!(fs.lookup_inode_entry(ino).unwrap().orphan);
    assert_eq!(fs.get_fat_entry(e.first_cluster), Ok(None));
    fs.evict_inode(ino).unwrap();
    assert!(fs.lookup_inode_entry(ino) == Err(Error::FileNotFound));
}

#[test]
fn fat_numbers_round_trip() {
    let ino = fat_ino_from_pos(7, 96);
    assert_eq!(split_fat_ino(ino), (7, 96));
}

#[test]
fn fat_mounts_only_what_is_one() {
    let blank = vec![0u8; 16 * 4096];
    assert_eq!(Fatfs::new(BlockDevice::from_image(1, &blank), 0, 128).err(), Some(Error::InvalidFs));
    assert_eq!(
        Fatfs::new(BlockDevice::from_image(1, &blank), 4096, 128).err(),
        Some(Error::MissingCriticalSectors)
    );
    let mut image = fat32_image();
    image[66] = 0;
    assert_eq!(Fatfs::new(BlockDevice::from_image(1, &image), 0, 128).err(), Some(Error::InvalidFs));
}

#[test]
fn fat_statistics_name_the_volume() {
    let mut fs = mount(&fat12_image());
    let s = fs.statfs().unwrap();
    assert_eq!(s.block_size, 512);
    assert!(s.fs_type.to_lowercase().contains("12"));
    assert_eq!(&s.volume_name[..5], b"LABEL");
}

#[test]
fn fat_short_names_are_packed() {
    assert_eq!(DirectoryEntry::string_to_fat_name("readme.txt"), b"README  TXT".to_vec());
    let mut e = DirectoryEntry::zeroed();
    e.set_name_from_string("a.b");
    assert!(e.name_matches("A.B"));
    assert!(e.fat_name_to_string().eq_ignore_ascii_case("a.b"));
    e.set_first_cluster(0x0012_3456);
    assert_eq!(e.first_cluster(), 0x0012_3456);
    let b = e.encode();
    assert_eq!(DirectoryEntry::decode(&b, 0).encode(), b);
    assert!(DirectoryEntry::is_valid_short_name("ABC.TXT"));
    assert!(!DirectoryEntry::is_valid_short_name("much too long.txt"));
    assert_eq!(sanitize_short_component("a b"), b"A_B".to_vec());
}

#[test]
fn fat_names_that_are_no_text_are_shown_with_marks() {
    let mut e = DirectoryEntry::zeroed();
    e.name = b"A\xFFB     TXT".to_vec();
    assert_eq!(e.fat_name_to_string().to_uppercase(), "A\u{FFFD}B.TXT");
}

#[test]
fn fat_entries_are_found_deleted_and_put_in_again() {
    let mut fs = mount(&fat12_image());
    for i in 0..16 {
        fs.create_file(&path(&format!("/F{}", i)), NOW).unwrap();
    }
    assert_eq!(fs.create_file(&path("/ONE"), NOW), Err(Error::NoSpace));
    fs.remove_file(&path("/F7"), NOW).unwrap();
    assert_eq!(fs.file_info(&path("/F7")).err(), Some(Error::FileNotFound));
    assert!(fs.file_info(&path("/F15")).is_ok());
    fs.create_file(&path("/ONE"), NOW).unwrap();
    assert!(fs.file_info(&path("/ONE")).is_ok());
}

#[test]
fn fat_directories_grow_by_a_cluster() {
    let mut fs = mount(&fat16_image());
    fs.create_dir(&path("/D"), NOW).unwrap();
    for i in 0..20 {
        fs.create_file(&path(&format!("/D/F{}", i)), NOW).unwrap();
    }
    for i in 0..20 {
        assert!(fs.file_info(&path(&format!("/D/F{}", i))).is_ok());
    }
}

#[test]
fn fat_long_name_entries_carry_the_checksum() {
    let mut e = DirectoryEntry::zeroed();
    e.set_name_from_string("LONGNA~1.TXT");
    let sum = e.short_name_checksum();
    let es = build_lfn_entries("a name of more than thirteen", sum);
    assert_eq!(es.len(), 3);
    for b in &es {
        assert_eq!(b.len(), 32);
        assert_eq!(b[11], 0x0F);
        assert_eq!(b[13], sum);
    }
    let first = LongFilenameEntry::decode(&es[0], 0);
    assert_eq!(first.checksum, sum);
    assert_eq!(es[0][0], 0x43);
    assert_eq!(es[2][0], 0x01);
}

#[test]
fn fat_fsinfo_round_trips() {
    let mut f = FsInfo::new();
    assert!(f.is_valid());
    assert!(!f.has_free_count());
    f.update_free_count(10);
    f.update_next_free(5);
    assert!(f.has_free_count() && f.has_next_free_hint());
    let b = f.encode();
    let g = FsInfo::decode(&b);
    assert_eq!(g.encode(), b);
}

#[test]
fn fat_boot_sectors_tell_the_variant() {
    let b = fat16_image();
    let boot = Fat32BootSector::decode(&b[..512]);
    assert!(boot.determine_fat_variant() == Some(FatVariant::Fat16));
    assert_eq!(boot.bytes_per_cluster(), 512);
    assert!(!boot.is_fat32());
    let b = fat32_image();
    let boot = Fat32BootSector::decode(&b[..512]);
    assert!(boot.is_fat32());
    assert_eq!(boot.fat_start_sector(), 32);
    assert_eq!(boot.data_start_sector(), 32 + 524);
    assert_eq!(boot.cluster_to_lba(3), 32 + 524 + 1);
    assert_eq!(boot.fsinfo_lba(), 1);
    let mut b = b;
    b[..11].copy_from_slice(b"\xEBX\x90MSDOS5.0");
    b[21] = 0xF8;
    put32(&mut b, 67, 0x1234_5678);
    put16(&mut b, 510, 0xAA55);
    let boot = Fat32BootSector::decode(&b[..512]);
    assert_eq!(boot.jmp_boot, b"\xEBX\x90");
    assert_eq!(boot.oem_name, b"MSDOS5.0");
    assert_eq!((boot.media, boot.volume_id, boot.boot_sector_signature), (0xF8, 0x1234_5678, 0xAA55));
    assert_eq!(boot.boot_code.len(), 420);
}

#[test]
fn fat_short_names_are_kept_but_for_case() {
    for name in ["readme.txt", "A", "Foo_Bar~.c", "x1.Y2"] {
        assert!(DirectoryEntry::is_valid_short_name(name));
        let mut e = DirectoryEntry::zeroed();
        e.set_name_from_string(name);
        assert!(e.fat_name_to_string().eq_ignore_ascii_case(name));
    }
    assert!(DirectoryEntry::is_valid_short_name("foo."));
    let mut e = DirectoryEntry::zeroed();
    e.set_name_from_string("foo.");
    assert_eq!(e.fat_name_to_string(), "FOO");
}

#[test]
fn fat_copies_follow_the_first() {
    for (mut image, size) in [(fat12_image(), 1u16), (fat16_image(), 32)] {
        let end = 512 * (size as usize + 1);
        image[end - 2] = 0xAB;
        image[end - 3] = 0xCD;
        let copy = 1 + size as u64;
        let mut fs = mount(&image);
        assert_ne!(fs.read_disk_sectors(1, size), fs.read_disk_sectors(copy, size));
        fs.mirror_primary_fat_to_backup().unwrap();
        assert_eq!(fs.read_disk_sectors(1, size), fs.read_disk_sectors(copy, size));
        assert_eq!(fs.read_disk_sectors(copy, size).unwrap()[end - 512 - 2], 0xAB);
    }
}

#[test]
fn fat_long_chains_are_followed() {
    let mut b = vec![0u8; 600 * 512];
    put16(&mut b, 11, 512);
    b[13] = 1;
    put16(&mut b, 14, 1);
    b[16] = 2;
    put16(&mut b, 17, 16);
    put16(&mut b, 19, 600);
    put16(&mut b, 22, 2);
    let mut fs = mount(&b);
    assert!(fs.variant == FatVariant::Fat12);
    let data = pattern(550 * 512);
    fs.create_file(&path("/LONG"), NOW).unwrap();
    assert_eq!(fs.write_bytes(&path("/LONG"), 0, &data, NOW), Ok(data.len() as u64));
    assert_eq!(fs.read_bytes(&path("/LONG"), 0, data.len()), Ok(data.clone()));
    assert_eq!(fs.read_bytes(&path("/LONG"), 549 * 512, 512), Ok(data[549 * 512..].to_vec()));
}

#[test]
fn fat_directories_are_listed_to_the_end() {
    let mut fs = mount(&fat16_image());
    fs.create_dir(&path("/DIR"), NOW).unwrap();
    for i in 0..14 {
        fs.create_file(&path(&format!("/DIR/F{i}")), NOW).unwrap();
    }
    let all = fs.list_files(&path("/DIR")).unwrap();
    assert_eq!(all.iter().filter(|f| f.name.starts_with('F')).count(), 14);
    assert!(fs.file_info(&path("/DIR/F13")).is_ok());
}

#[test]
fn fat_every_copy_of_the_table_is_kept() {
    let mut image = fat12_image();
    image[16] = 3;
    image[1536..1539].copy_from_slice(&[0xF8, 0xFF, 0xFF]);
    let mut fs = mount(&image);
    write_and_read(&mut fs);
    let first = fs.read_disk_sectors(1, 1).unwrap();
    assert_ne!(first[3..], [0u8; 509]);
    assert_eq!(fs.read_disk_sectors(2, 1).unwrap(), first);
    assert_eq!(fs.read_disk_sectors(3, 1).unwrap(), first);
}

#[test]
fn fat_flushed_pages_are_on_the_medium() {
    let mut fs = mount(&fat32_image());
    fs.create_file(&path("/f"), NOW).unwrap();
    let ino = fs.resolve_inode(&path("/f")).unwrap();
    fs.update_size(ino, 4096, NOW).unwrap();
    let page = pattern(4096);
    fs.flush_page(ino, 0, &page).unwrap();
    let n = fs.device.page_count();
    let mut medium: Vec<u8> = Vec::new();
    for i in 0..n {
        medium.extend(fs.device.home_page(i).unwrap());
    }
    for piece in page.chunks(512) {
        assert!(medium.chunks(512).any(|s| s == piece));
    }
}

#[test]
fn fat_parts_of_a_file_are_slices_of_it() {
    let mut fs = mount(&fat12_image());
    fs.create_file(&path("/a"), NOW).unwrap();
    fs.create_file(&path("/b"), NOW).unwrap();
    let data = pattern(2600);
    for (i, piece) in data.chunks(700).enumerate() {
        fs.write_bytes(&path("/a"), i * 700, piece, NOW).unwrap();
        fs.write_bytes(&path("/b"), i * 700, piece, NOW).unwrap();
    }
    let whole = fs.read_bytes(&path("/a"), 0, 2600).unwrap();
    assert_eq!(whole, data);
    for (at, n) in [(0, 1), (511, 2), (512, 512), (1000, 1600), (2599, 1)] {
        assert_eq!(fs.read_bytes(&path("/a"), at, n).unwrap(), &data[at..at + n]);
    }
}

#[test]
fn fat_a_fixed_root_is_read_only_to_its_end() {
    let mut b = fat16_image();
    put16(&mut b, 17, 512);
    let cut = BlockDevice::from_image(1, &b[..72 * 512]);
    let mut fs = Fatfs::new(cut, 0, 8192).unwrap();
    assert_eq!(fs.get_root_dir_entries().map(|v| v.len()), Ok(0));
    b[65 * 512..69 * 512].fill(0xE5);
    b[69 * 512..72 * 512].fill(0xE5);
    let cut = BlockDevice::from_image(1, &b[..72 * 512]);
    let mut fs = Fatfs::new(cut, 0, 8192).unwrap();
    assert_eq!(fs.get_root_dir_entries().map(|v| v.len()), Err(Error::IoError));
}
