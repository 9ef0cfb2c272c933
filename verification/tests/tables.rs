use edos_fs::block_device::BlockDevice;
use edos_fs::gpt::{parse_gpt, FilesystemType, PartitionType, TableError, GPT_SIGNATURE};
use edos_fs::mbr::{detect_fat_family, detect_filesystem, detect_ntfs, generate_mbr_guid, parse_mbr, MbrHeader};

fn put(b: &mut [u8], off: usize, v: &[u8]) {
    b[off..off + v.len()].copy_from_slice(v);
}

fn gpt_image() -> Vec<u8> {
    let mut b = vec![0u8; 64 * 4096];
    put(&mut b, 512, &GPT_SIGNATURE.to_le_bytes());
    put(&mut b, 512 + 72, &2u64.to_le_bytes());
    put(&mut b, 512 + 80, &4u32.to_le_bytes());
    put(&mut b, 512 + 84, &128u32.to_le_bytes());
    let e = 1024;
    put(&mut b, e, &0x11D2_F81F_C12A_7328u64.to_le_bytes());
    put(&mut b, e + 8, &0x3BC9_3EC9_A000_4BBAu64.to_le_bytes());
    put(&mut b, e + 16, &77u64.to_le_bytes());
    put(&mut b, e + 32, &64u64.to_le_bytes());
    put(&mut b, e + 40, &127u64.to_le_bytes());
    for (i, c) in "boot".bytes().enumerate() {
        b[e + 56 + 2 * i] = c;
    }
    let e = 1024 + 256;
    put(&mut b, e, &1u64.to_le_bytes());
    put(&mut b, e + 32, &128u64.to_le_bytes());
    put(&mut b, e + 40, &255u64.to_le_bytes());
    b
}

fn mbr_image() -> Vec<u8> {
    let mut b = vec![0u8; 64 * 4096];
    put(&mut b, 440, &0xAABB_CCDDu32.to_le_bytes());
    b[446 + 4] = 0x0C;
    put(&mut b, 446 + 8, &64u32.to_le_bytes());
    put(&mut b, 446 + 12, &100u32.to_le_bytes());
    put(&mut b, 510, &[0x55, 0xAA]);
    put(&mut b, 64 * 512 + 3, b"NTFS    ");
    put(&mut b, 64 * 512 + 11, &512u16.to_le_bytes());
    b
}

#[test]
fn gpt_partitions_are_found() {
    let mut d = BlockDevice::from_image(5, &gpt_image());
    let ps = parse_gpt(&mut d).ok().unwrap();
    assert_eq!(ps.len(), 2);
    assert_eq!(ps[0].name, "boot");
    assert!(ps[0].partition_type == PartitionType::EfiSystem);
    assert_eq!((ps[0].starting_lba, ps[0].ending_lba, ps[0].size_sectors), (64, 127, 64));
    assert_eq!(ps[0].device_id, 5);
    assert_eq!(ps[0].unique_partition_guid.low, 77);
    assert!(ps[1].filesystem == Some(FilesystemType::Unknown));
    assert!(matches!(ps[1].partition_type, PartitionType::Unknown(_)));
}

#[test]
fn gpt_names_hold_any_character() {
    let mut b = gpt_image();
    let name = "a\u{e9}\u{1F600}z";
    for (i, u) in name.encode_utf16().enumerate() {
        put(&mut b, 1024 + 56 + 2 * i, &u.to_le_bytes());
    }
    let mut d = BlockDevice::from_image(5, &b);
    assert_eq!(parse_gpt(&mut d).ok().unwrap()[0].name, name);
    put(&mut b, 1024 + 56 + 2, &0xD800u16.to_le_bytes());
    let mut d = BlockDevice::from_image(5, &b);
    assert_eq!(parse_gpt(&mut d).ok().unwrap()[0].name, "a\u{1F600}z");
}

#[test]
fn gpt_errors_say_what_is_wrong() {
    let mut d = BlockDevice::from_image(5, &mbr_image());
    assert!(parse_gpt(&mut d).err() == Some(TableError::InvalidSignature));
    let mut none = BlockDevice::from_image(5, &[]);
    assert!(parse_gpt(&mut none).err() == Some(TableError::ReadHeader));
    let mut b = gpt_image();
    put(&mut b, 512 + 84, &0u32.to_le_bytes());
    let mut d = BlockDevice::from_image(5, &b);
    assert!(parse_gpt(&mut d).err() == Some(TableError::InvalidEntrySize));
    let mut b = gpt_image();
    put(&mut b, 512 + 72, &100_000u64.to_le_bytes());
    let mut d = BlockDevice::from_image(5, &b);
    assert!(parse_gpt(&mut d).err() == Some(TableError::ReadEntries));
}

#[test]
fn mbr_partitions_are_found() {
    let mut d = BlockDevice::from_image(2, &mbr_image());
    let ps = parse_mbr(&mut d).ok().unwrap();
    assert_eq!(ps.len(), 1);
    assert_eq!((ps[0].starting_lba, ps[0].ending_lba, ps[0].size_sectors), (64, 163, 100));
    assert!(ps[0].name.starts_with("MBR Partition 1 ("));
    assert!(ps[0].partition_type == PartitionType::Fat32);
    assert!(ps[0].filesystem == Some(FilesystemType::Ntfs));
    assert!(ps[0].unique_partition_guid == generate_mbr_guid(2, 0));
}

#[test]
fn mbr_lists_every_entry_with_a_type() {
    let mut b = mbr_image();
    b[446 + 16 + 4] = 0x05;
    put(&mut b, 446 + 16 + 8, &200u32.to_le_bytes());
    put(&mut b, 446 + 16 + 12, &50u32.to_le_bytes());
    b[446 + 48 + 4] = 0x07;
    put(&mut b, 446 + 48 + 1, &[1, 2, 3]);
    put(&mut b, 446 + 48 + 5, &[4, 5, 6]);
    put(&mut b, 446 + 48 + 8, &300u32.to_le_bytes());
    b[0] = 0xEB;
    let mut d = BlockDevice::from_image(2, &b);
    let ps = parse_mbr(&mut d).ok().unwrap();
    let found: Vec<(usize, u64, u64)> = ps.iter().map(|p| (p.index, p.starting_lba, p.size_sectors)).collect();
    assert_eq!(found, vec![(0, 64, 100), (1, 200, 50), (3, 300, 0)]);
    let h = MbrHeader::decode(&b[..512]);
    assert!(h.partitions[1].is_extended() && h.partitions[1].is_used());
    assert!(h.partitions[3].is_used());
    assert_eq!((h.partitions[3].start_chs, h.partitions[3].end_chs), ([1, 2, 3], [4, 5, 6]));
    assert_eq!((h.bootloader[0], h.bootloader.len(), h.reserved), (0xEB, 440, 0));
}

#[test]
fn mbr_errors_say_what_is_wrong() {
    let mut d = BlockDevice::from_image(2, &vec![0u8; 8192]);
    assert!(parse_mbr(&mut d).err() == Some(TableError::InvalidSignature));
    let mut none = BlockDevice::from_image(2, &[]);
    assert!(parse_mbr(&mut none).err() == Some(TableError::ReadHeader));
}

#[test]
fn boot_sectors_are_recognised() {
    let b = mbr_image();
    let h = MbrHeader::decode(&b[..512]);
    assert!(h.is_valid());
    assert_eq!(h.disk_id, 0xAABB_CCDD);
    assert!(h.partitions[0].is_used());
    assert!(!h.partitions[1].is_used());
    assert!(!h.partitions[0].is_extended());
    assert!(detect_ntfs(&b[64 * 512..65 * 512]));
    assert!(detect_fat_family(&b[64 * 512..65 * 512]) == None);
}

#[test]
fn file_systems_are_detected() {
    let mut b = mbr_image();
    let mut d = BlockDevice::from_image(2, &b);
    assert!(detect_filesystem(&mut d, 64) == Ok(FilesystemType::Ntfs));
    assert!(detect_filesystem(&mut d, 100) == Ok(FilesystemType::Unknown));
    assert!(detect_filesystem(&mut d, 512) == Err(TableError::ReadBootSector));
    put(&mut b, 72 * 512, &0x4546_5321u32.to_le_bytes());
    let mut d = BlockDevice::from_image(2, &b);
    assert!(detect_filesystem(&mut d, 64) == Ok(FilesystemType::Efs));
}

#[test]
fn file_system_types_have_names() {
    assert_eq!(FilesystemType::Efs.name(), "EFS");
    assert!(FilesystemType::Fat16.is_device_backed());
    assert!(!FilesystemType::Memfs.is_device_backed());
}
