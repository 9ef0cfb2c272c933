//! Master boot records, and which file system a partition carries.
use vstd::prelude::*;
use crate::block_device;
use crate::block_device::BlockDevice;
use crate::bytes;
use crate::bytes::{bytes_eq, get_u16, get_u32, sub_vec};
use crate::fat32::structures;
use crate::fat32::structures::{BootView, Fat32BootSector};
use crate::gpt;
use crate::gpt::{FilesystemType, Guid, Partition, PartitionType, PartitionView, TableError};
use crate::text;
use crate::text::{push_decimal, string_from_utf8};

verus! {

/// The first four bytes of the superblock of an EFS volume.
pub const EFS_MAGIC: u32 = 0x4546_5321;

/// An entry of a master boot record.
#[derive(Debug, Clone, Copy, PartialEq, Eq)]
pub struct MbrPartitionEntry {
    /// 0x80 if the partition can be booted from.
    pub status: u8,
    /// First sector as cylinder, head and sector, packed.
    pub start_chs: [u8; 3],
    pub partition_type: u8,
    /// Last sector as cylinder, head and sector, packed.
    pub end_chs: [u8; 3],
    pub start_lba: u32,
    pub size_sectors: u32,
}

/// A master boot record.
pub struct MbrHeader {
    /// The code that starts the machine.
    pub bootloader: Vec<u8>,
    pub disk_id: u32,
    pub reserved: u16,
    /// Four entries.
    pub partitions: Vec<MbrPartitionEntry>,
    /// 0x55, 0xAA.
    pub signature: u16,
}

/// The entry at `off`.
pub open spec fn dec_mbr_entry(s: Seq<u8>, off: int) -> MbrPartitionEntry {
    MbrPartitionEntry {
        status: s[off],
        start_chs: [s[off + 1], s[off + 2], s[off + 3]],
        partition_type: s[off + 4],
        end_chs: [s[off + 5], s[off + 6], s[off + 7]],
        start_lba: bytes::le32(s, off + 8),
        size_sectors: bytes::le32(s, off + 12),
    }
}

/// Whether an entry stands for a partition.
pub open spec fn used(e: MbrPartitionEntry) -> bool {
    e.partition_type != 0
}

/// Whether an entry stands for an extended partition.
pub open spec fn extended(e: MbrPartitionEntry) -> bool {
    e.partition_type == 0x05 || e.partition_type == 0x0F || e.partition_type == 0x85
}

/// Last sector of a partition.
pub open spec fn last_sector(e: MbrPartitionEntry) -> u64 {
    if e.size_sectors > 0 {
        (e.start_lba + e.size_sectors - 1) as u64
    } else {
        e.start_lba as u64
    }
}

/// What a partition with this type byte is for.
pub open spec fn type_of_byte(t: u8) -> PartitionType {
    if t == 0x01 {
        PartitionType::Fat12
    } else if t == 0x04 {
        PartitionType::Fat16Small
    } else if t == 0x06 {
        PartitionType::Fat16
    } else if t == 0x0B || t == 0x0C {
        PartitionType::Fat32
    } else if t == 0x07 {
        PartitionType::Ntfs
    } else if t == 0x82 {
        PartitionType::LinuxSwap
    } else if t == 0x83 {
        PartitionType::LinuxFilesystem
    } else if t == 0x05 || t == 0x0F || t == 0x85 {
        PartitionType::Extended
    } else if t == 0xEF {
        PartitionType::EfiSystemMbr
    } else {
        PartitionType::MbrUnknown(t)
    }
}

/// What a type byte is called in the name of a partition.
pub open spec fn type_label(t: u8) -> Seq<char> {
    if t == 0x0B || t == 0x0C {
        "FAT32"@
    } else if t == 0x07 {
        "NTFS"@
    } else if t == 0x82 {
        "Linux Swap"@
    } else if t == 0x83 {
        "Linux"@
    } else if t == 0x05 || t == 0x0F {
        "Extended"@
    } else if t == 0xEF {
        "EFI System"@
    } else {
        "Unknown"@
    }
}

/// The name of the partition with this index and type.
pub open spec fn mbr_name(index: int, t: u8) -> Seq<char> {
    "MBR Partition "@ + text::decimal((index + 1) as nat) + " ("@ + type_label(t) + ")"@
}

impl MbrHeader {
    /// Decodes a master boot record.
    pub fn decode(s: &[u8]) -> (h: MbrHeader)
        requires
            s.len() >= 512,
        ensures
            h.bootloader@ == s@.take(440),
            h.disk_id == bytes::le32(s@, 440),
            h.reserved == bytes::le16(s@, 444),
            h.signature == bytes::le16(s@, 510),
            h.partitions@ == Seq::new(4, |i: int| dec_mbr_entry(s@, 446 + 16 * i)),
    {
        let mut partitions: Vec<MbrPartitionEntry> = Vec::new();
        let mut i: usize = 0;
        while i < 4
            invariant
                i <= 4,
                s.len() >= 512,
                partitions@ == Seq::new(i as nat, |k: int| dec_mbr_entry(s@, 446 + 16 * k)),
            decreases 4 - i,
        {
            let off: usize = 446 + 16 * i;
            partitions.push(
                MbrPartitionEntry {
                    status: s[off],
                    start_chs: [s[off + 1], s[off + 2], s[off + 3]],
                    end_chs: [s[off + 5], s[off + 6], s[off + 7]],
                    partition_type: s[off + 4],
                    start_lba: get_u32(s, off + 8),
                    size_sectors: get_u32(s, off + 12),
                },
            );
            assert(partitions@ =~= Seq::new(
                (i + 1) as nat,
                |k: int| dec_mbr_entry(s@, 446 + 16 * k),
            ));
            i = i + 1;
        }
        let bootloader = sub_vec(s, 0, 440);
        assert(bootloader@ =~= s@.take(440));
        MbrHeader {
            bootloader,
            disk_id: get_u32(s, 440),
            reserved: get_u16(s, 444),
            partitions,
            signature: get_u16(s, 510),
        }
    }

    /// Whether the signature is right.
    pub fn is_valid(&self) -> (r: bool)
        ensures
            r == (self.signature == 0xAA55),
    {
        self.signature == 0xAA55
    }
}

impl MbrPartitionEntry {
    /// Whether the entry stands for a partition.
    pub fn is_used(&self) -> (r: bool)
        ensures
            r == (self.partition_type != 0),
    {
        self.partition_type != 0
    }

    /// Whether the entry stands for an extended partition.
    pub fn is_extended(&self) -> (r: bool)
        ensures
            r == extended(*self),
    {
        self.partition_type == 0x05 || self.partition_type == 0x0F || self.partition_type == 0x85
    }

    /// Sectors of the partition.
    pub fn size_sectors(&self) -> (r: u64)
        ensures
            r == self.size_sectors,
    {
        self.size_sectors as u64
    }

    /// First sector of the partition.
    pub fn starting_lba(&self) -> (r: u64)
        ensures
            r == self.start_lba,
    {
        self.start_lba as u64
    }

    /// Last sector of the partition.
    pub fn ending_lba(&self) -> (r: u64)
        ensures
            r == last_sector(*self),
    {
        if self.size_sectors > 0 {
            self.start_lba as u64 + self.size_sectors as u64 - 1
        } else {
            self.start_lba as u64
        }
    }

    /// What the partition is for.
    pub fn partition_type(&self) -> (r: PartitionType)
        ensures
            r == type_of_byte(self.partition_type),
    {
        let t: u8 = self.partition_type;
        if t == 0x01 {
            PartitionType::Fat12
        } else if t == 0x04 {
            PartitionType::Fat16Small
        } else if t == 0x06 {
            PartitionType::Fat16
        } else if t == 0x0B || t == 0x0C {
            PartitionType::Fat32
        } else if t == 0x07 {
            PartitionType::Ntfs
        } else if t == 0x82 {
            PartitionType::LinuxSwap
        } else if t == 0x83 {
            PartitionType::LinuxFilesystem
        } else if t == 0x05 || t == 0x0F || t == 0x85 {
            PartitionType::Extended
        } else if t == 0xEF {
            PartitionType::EfiSystemMbr
        } else {
            PartitionType::MbrUnknown(t)
        }
    }

    /// A name for the partition.
    pub fn name(&self, index: usize) -> (r: String)
        requires
            index < u64::MAX,
        ensures
            r@ == mbr_name(index as int, self.partition_type),
    {
        let t: u8 = self.partition_type;
        let label: &'static str = if t == 0x0B || t == 0x0C {
            "FAT32"
        } else if t == 0x07 {
            "NTFS"
        } else if t == 0x82 {
            "Linux Swap"
        } else if t == 0x83 {
            "Linux"
        } else if t == 0x05 || t == 0x0F {
            "Extended"
        } else if t == 0xEF {
            "EFI System"
        } else {
            "Unknown"
        };
        let mut s = String::new();
        s.append("MBR Partition ");
        push_decimal(&mut s, index as u64 + 1);
        s.append(" (");
        s.append(label);
        s.append(")");
        assert(s@ =~= mbr_name(index as int, t));
        s
    }
}

/// An identifier for a partition of a device that has none.
pub open spec fn mbr_guid(device_id: u64, index: int) -> Guid {
    Guid { low: device_id, high: (index % 0x1_0000_0000 + 0x0052_424D_0000_0000) as u64 }
}

/// An identifier for a partition of a device that has none.
pub fn generate_mbr_guid(device_id: u64, partition_index: usize) -> (r: Guid)
    ensures
        r == mbr_guid(device_id, partition_index as int),
{
    Guid { low: device_id, high: partition_index as u64 % 0x1_0000_0000 + 0x0052_424D_0000_0000 }
}

// ---- File systems ---------------------------------------------------------------------

/// Whether `sub` stands in `b`.
pub open spec fn holds_bytes(b: Seq<u8>, sub: Seq<u8>) -> bool {
    exists|i: int|
        0 <= i && i + sub.len() <= b.len() && #[trigger] b.subrange(i, i + sub.len()) == sub
}

/// "MSDOS", "mkfs" or "FAT".
pub open spec fn fat_maker(oem: Seq<u8>) -> bool {
    vstd::utf8::valid_utf8(oem) && (holds_bytes(oem, seq![0x4Du8, 0x53, 0x44, 0x4F, 0x53])
        || holds_bytes(oem, seq![0x6Du8, 0x6B, 0x66, 0x73]) || holds_bytes(
        oem,
        seq![0x46u8, 0x41, 0x54],
    ))
}

/// A guess at FAT for unusual boot sectors: by who made it, or by its jump
/// instruction.
pub open spec fn fat_guess(b: BootView) -> Option<FilesystemType> {
    if fat_maker(b.oem_name) && b.bytes_per_sector == 512 && 1 <= b.sectors_per_cluster
        <= 64 {
        Some(FilesystemType::Fat16)
    } else if (b.jmp_boot[0] == 0xEB || b.jmp_boot[0] == 0xE9) && b.bytes_per_sector == 512 {
        Some(FilesystemType::Fat16)
    } else {
        None
    }
}

/// Whether a boot sector may be one of FAT12 or FAT16.
pub open spec fn small_fat(b: BootView) -> bool {
    b.bytes_per_sector == 512 && 1 <= b.sectors_per_cluster <= 128 && 1 <= b.num_fats <= 2
        && b.fat_size_16 > 0 && b.total_sectors_32 == 0
}

/// Clusters of a volume that keeps its FAT size in 16 bits.
pub open spec fn small_clusters(b: BootView) -> int {
    let n = structures::total_sectors(b) - b.reserved_sector_count - b.num_fats * b.fat_size_16
        - structures::root_sectors(b);
    (if n < 0 {
        0
    } else {
        n
    }) / (b.sectors_per_cluster as int)
}

/// The FAT file system that a boot sector shows, if any.
pub open spec fn fat_family(s: Seq<u8>) -> Option<FilesystemType> {
    let b = structures::dec_boot(s);
    if s[510] != 0x55 || s[511] != 0xAA {
        None
    } else if structures::strictly_fat32(b) {
        Some(FilesystemType::Fat32)
    } else if small_fat(b) {
        let n = small_clusters(b);
        if n == 0 {
            fat_guess(b)
        } else if n < 4085 {
            Some(FilesystemType::Fat12)
        } else if n < 65525 {
            Some(FilesystemType::Fat16)
        } else {
            None
        }
    } else {
        fat_guess(b)
    }
}

/// Whether a boot sector is one of NTFS.
pub open spec fn is_ntfs(s: Seq<u8>) -> bool {
    let n = bytes::le16(s, 11);
    s.subrange(3, 11) == seq![0x4Eu8, 0x54, 0x46, 0x53, 0x20, 0x20, 0x20, 0x20] && (n == 512 || n
        == 1024 || n == 2048 || n == 4096)
}

/// Whether a sector is a primary volume descriptor of ISO 9660.
pub open spec fn is_volume_descriptor(s: Seq<u8>) -> bool {
    s[0] == 1 && s.subrange(1, 6) == seq![0x43u8, 0x44, 0x30, 0x30, 0x31]
}

/// Whether the sector at `lba` can be read and is a primary volume descriptor.
pub open spec fn descriptor_at(disk: Seq<u8>, lba: int) -> bool {
    match block_device::sectors(disk, lba, 1) {
        Some(s) => is_volume_descriptor(s),
        None => false,
    }
}

/// Whether a partition that starts at `lba` carries ISO 9660. The descriptor is looked
/// for sixteen sectors in; if that sector can be read but is none, also at the places
/// where hybrid images have it.
pub open spec fn is_iso9660(disk: Seq<u8>, lba: int) -> bool {
    block_device::sectors(disk, lba + 16, 1) is Some && (descriptor_at(disk, lba + 16) || (lba > 0
        && (descriptor_at(disk, lba) || descriptor_at(disk, lba + 32))))
}

/// Whether a partition that starts at `lba` carries EFS.
pub open spec fn is_efs(disk: Seq<u8>, lba: int) -> bool {
    match block_device::sectors(disk, lba + 8, 8) {
        Some(d) => bytes::le32(d, 0) == EFS_MAGIC,
        None => false,
    }
}

/// The file system of a partition that starts at `lba`.
#[verifier::opaque]
pub open spec fn detected(disk: Seq<u8>, lba: int) -> Result<FilesystemType, TableError> {
    match block_device::sectors(disk, lba, 1) {
        None => Err::<FilesystemType, TableError>(TableError::ReadBootSector),
        Some(s) => Ok::<FilesystemType, TableError>(
            if is_efs(disk, lba) {
                FilesystemType::Efs
            } else if is_iso9660(disk, lba) {
                FilesystemType::Iso9660
            } else {
                match fat_family(s) {
                    Some(t) => t,
                    None => if is_ntfs(s) {
                        FilesystemType::Ntfs
                    } else {
                        FilesystemType::Unknown
                    },
                }
            },
        ),
    }
}

fn contains_bytes(b: &[u8], sub: &[u8]) -> (r: bool)
    ensures
        r == holds_bytes(b@, sub@),
{
    if sub.len() > b.len() {
        return false;
    }
    let mut i: usize = 0;
    while i <= b.len() - sub.len()
        invariant
            sub.len() <= b.len(),
            i <= b.len() - sub.len() + 1,
            forall|k: int|
                0 <= k < i ==> #[trigger] b@.subrange(k, k + sub@.len()) != sub@,
        decreases b.len() - sub.len() + 1 - i,
    {
        let w = sub_vec(b, i, i + sub.len());
        if bytes_eq(w.as_slice(), sub) {
            assert(b@.subrange(i as int, i + sub@.len()) == sub@);
            return true;
        }
        if i == b.len() - sub.len() {
            return false;
        }
        i = i + 1;
    }
    false
}

fn made_for_fat(oem: &[u8]) -> (r: bool)
    ensures
        r == fat_maker(oem@),
{
    let copy = crate::bytes::copy_vec(oem);
    if string_from_utf8(copy).is_none() {
        return false;
    }
    let msdos: Vec<u8> = vec![0x4D, 0x53, 0x44, 0x4F, 0x53];
    let mkfs: Vec<u8> = vec![0x6D, 0x6B, 0x66, 0x73];
    let fat: Vec<u8> = vec![0x46, 0x41, 0x54];
    assert(msdos@ =~= seq![0x4Du8, 0x53, 0x44, 0x4F, 0x53]);
    assert(mkfs@ =~= seq![0x6Du8, 0x6B, 0x66, 0x73]);
    assert(fat@ =~= seq![0x46u8, 0x41, 0x54]);
    contains_bytes(oem, msdos.as_slice()) || contains_bytes(oem, mkfs.as_slice()) || contains_bytes(
        oem,
        fat.as_slice(),
    )
}

/// A guess at FAT for unusual boot sectors.
fn detect_fat_by_heuristics(b: &Fat32BootSector) -> (r: Option<FilesystemType>)
    requires
        b@.jmp_boot.len() == 3,
    ensures
        r == fat_guess(b@),
{
    if made_for_fat(b.oem_name.as_slice()) && b.bytes_per_sector == 512 && b.sectors_per_cluster >= 1
        && b.sectors_per_cluster <= 64 {
        return Some(FilesystemType::Fat16);
    }
    if (b.jmp_boot[0] == 0xEB || b.jmp_boot[0] == 0xE9) && b.bytes_per_sector == 512 {
        return Some(FilesystemType::Fat16);
    }
    None
}

/// Whether a boot sector may be one of FAT12 or FAT16.
fn is_fat16_or_fat12_lenient(b: &Fat32BootSector) -> (r: bool)
    ensures
        r == small_fat(b@),
{
    b.bytes_per_sector == 512 && b.sectors_per_cluster >= 1 && b.sectors_per_cluster <= 128
        && b.num_fats >= 1 && b.num_fats <= 2 && b.fat_size_16 > 0 && b.total_sectors_32 == 0
}

/// Clusters of a volume that keeps its FAT size in 16 bits.
pub fn calculate_cluster_count(b: &Fat32BootSector) -> (r: u32)
    requires
        b@.sectors_per_cluster > 0,
    ensures
        r == small_clusters(b@),
{
    let total: u64 = if b.total_sectors_16 != 0 {
        b.total_sectors_16 as u64
    } else {
        b.total_sectors_32 as u64
    };
    let root: u64 = (b.root_entry_count as u64 * 32 + 511) / 512;
    assert(b.num_fats * b.fat_size_16 <= 255 * 0xFFFF) by (nonlinear_arith)
        requires
            b.num_fats <= 255,
            b.fat_size_16 <= 0xFFFF,
    ;
    let taken: u64 = b.reserved_sector_count as u64 + b.num_fats as u64 * b.fat_size_16 as u64
        + root;
    let data: u64 = if taken > total {
        0
    } else {
        total - taken
    };
    let spc: u64 = b.sectors_per_cluster as u64;
    assert(data / spc <= data) by (nonlinear_arith)
        requires
            spc > 0,
    ;
    (data / spc) as u32
}

/// The FAT file system that a boot sector shows, if any.
pub fn detect_fat_family(s: &[u8]) -> (r: Option<FilesystemType>)
    requires
        s.len() >= 512,
    ensures
        r == fat_family(s@),
{
    if s[510] != 0x55 || s[511] != 0xAA {
        return None;
    }
    let b = Fat32BootSector::decode(s);
    if b.is_fat32() {
        return Some(FilesystemType::Fat32);
    }
    if is_fat16_or_fat12_lenient(&b) {
        let n: u32 = calculate_cluster_count(&b);
        if n == 0 {
            detect_fat_by_heuristics(&b)
        } else if n < 4085 {
            Some(FilesystemType::Fat12)
        } else if n < 65525 {
            Some(FilesystemType::Fat16)
        } else {
            None
        }
    } else {
        detect_fat_by_heuristics(&b)
    }
}

/// Whether a boot sector is one of NTFS.
pub fn detect_ntfs(s: &[u8]) -> (r: bool)
    requires
        s.len() >= 512,
    ensures
        r == is_ntfs(s@),
{
    let oem = sub_vec(s, 3, 11);
    let want: Vec<u8> = vec![0x4E, 0x54, 0x46, 0x53, 0x20, 0x20, 0x20, 0x20];
    assert(want@ =~= seq![0x4Eu8, 0x54, 0x46, 0x53, 0x20, 0x20, 0x20, 0x20]);
    let n: u16 = get_u16(s, 11);
    bytes_eq(oem.as_slice(), want.as_slice()) && (n == 512 || n == 1024 || n == 2048 || n == 4096)
}

fn check_descriptor(device: &mut BlockDevice, lba: u64) -> (r: Option<bool>)
    requires
        old(device).wf(),
    ensures
        final(device).wf(),
        final(device)@ == old(device)@,
        final(device).persisted() == old(device).persisted(),
        final(device).dirty() == old(device).dirty(),
        final(device).device_id == old(device).device_id,
        ({
            let disk = block_device::flat(old(device)@);
            match r {
                Some(b) => block_device::sectors(disk, lba as int, 1) is Some && b
                    == descriptor_at(disk, lba as int),
                None => block_device::sectors(disk, lba as int, 1) is None,
            }
        }),
{
    match device.read_sectors(lba, 1) {
        Ok(s) => {
            let tag = sub_vec(s.as_slice(), 1, 6);
            let want: Vec<u8> = vec![0x43, 0x44, 0x30, 0x30, 0x31];
            assert(want@ =~= seq![0x43u8, 0x44, 0x30, 0x30, 0x31]);
            Some(s[0] == 1 && bytes_eq(tag.as_slice(), want.as_slice()))
        },
        Err(_) => None,
    }
}

/// Whether a partition carries ISO 9660.
pub fn detect_iso9660(device: &mut BlockDevice, lba: u64) -> (r: bool)
    requires
        old(device).wf(),
        lba <= u64::MAX - 32,
    ensures
        final(device).wf(),
        final(device)@ == old(device)@,
        final(device).persisted() == old(device).persisted(),
        final(device).dirty() == old(device).dirty(),
        final(device).device_id == old(device).device_id,
        r == is_iso9660(block_device::flat(old(device)@), lba as int),
{
    match check_descriptor(device, lba + 16) {
        None => {
            return false;
        },
        Some(true) => {
            return true;
        },
        Some(false) => {},
    }
    if lba == 0 {
        return false;
    }
    match check_descriptor(device, lba) {
        Some(true) => {
            return true;
        },
        _ => {},
    }
    match check_descriptor(device, lba + 32) {
        Some(true) => true,
        _ => false,
    }
}

/// The file system that a partition carries.
pub fn detect_filesystem(device: &mut BlockDevice, lba: u64) -> (r: Result<
    FilesystemType,
    TableError,
>)
    requires
        old(device).wf(),
        lba <= u64::MAX - 32,
    ensures
        final(device).wf(),
        final(device)@ == old(device)@,
        final(device).persisted() == old(device).persisted(),
        final(device).dirty() == old(device).dirty(),
        final(device).device_id == old(device).device_id,
        r == detected(block_device::flat(old(device)@), lba as int),
{
    reveal(detected);
    let s = match device.read_sectors(lba, 1) {
        Ok(s) => s,
        Err(_) => {
            return Err(TableError::ReadBootSector);
        },
    };
    match device.read_sectors(lba + 8, 8) {
        Ok(d) => if get_u32(d.as_slice(), 0) == EFS_MAGIC {
            return Ok(FilesystemType::Efs);
        },
        Err(_) => {},
    }
    if detect_iso9660(device, lba) {
        return Ok(FilesystemType::Iso9660);
    }
    match detect_fat_family(s.as_slice()) {
        Some(t) => {
            return Ok(t);
        },
        None => {},
    }
    if detect_ntfs(s.as_slice()) {
        return Ok(FilesystemType::Ntfs);
    }
    Ok(FilesystemType::Unknown)
}

// ---- The table ------------------------------------------------------------------------

/// The partition that an entry describes.
pub open spec fn described(e: MbrPartitionEntry, index: int, device_id: u64, t: FilesystemType) -> PartitionView {
    PartitionView {
        index,
        starting_lba: e.start_lba as u64,
        ending_lba: last_sector(e),
        size_sectors: e.size_sectors as u64,
        partition_type: type_of_byte(e.partition_type),
        name: mbr_name(index, e.partition_type),
        filesystem: Some(t),
        device_id,
        unique_partition_guid: mbr_guid(device_id, index),
    }
}

/// The partitions that the entries from `i` on describe. An extended partition is one of
/// them, and what lies inside it is not looked at.
pub open spec fn primaries(disk: Seq<u8>, device_id: u64, s: Seq<u8>, i: int) -> Result<
    Seq<PartitionView>,
    TableError,
>
    decreases 4 - i,
{
    let e = dec_mbr_entry(s, 446 + 16 * i);
    if i >= 4 {
        Ok::<Seq<PartitionView>, TableError>(Seq::empty())
    } else if !used(e) {
        primaries(disk, device_id, s, i + 1)
    } else {
        match detected(disk, e.start_lba as int) {
            Err(x) => Err::<Seq<PartitionView>, TableError>(x),
            Ok(t) => match primaries(disk, device_id, s, i + 1) {
                Err(x) => Err::<Seq<PartitionView>, TableError>(x),
                Ok(rest) => Ok::<Seq<PartitionView>, TableError>(
                    seq![described(e, i, device_id, t)] + rest,
                ),
            },
        }
    }
}

/// The partitions of a device that holds `disk`.
#[verifier::opaque]
pub open spec fn mbr_partitions(disk: Seq<u8>, device_id: u64) -> Result<
    Seq<PartitionView>,
    TableError,
> {
    match block_device::sectors(disk, 0, 1) {
        None => Err::<Seq<PartitionView>, TableError>(TableError::ReadHeader),
        Some(s) => if bytes::le16(s, 510) != 0xAA55 {
            Err::<Seq<PartitionView>, TableError>(TableError::InvalidSignature)
        } else {
            primaries(disk, device_id, s, 0)
        },
    }
}

/// Reads the master boot record of a device.
pub fn parse_mbr(device: &mut BlockDevice) -> (r: Result<Vec<Partition>, TableError>)
    requires
        old(device).wf(),
    ensures
        final(device).wf(),
        final(device)@ == old(device)@,
        final(device).persisted() == old(device).persisted(),
        final(device).dirty() == old(device).dirty(),
        final(device).device_id == old(device).device_id,
        gpt::table_of(r) == mbr_partitions(
            block_device::flat(old(device)@),
            old(device).device_id,
        ),
{
    reveal(mbr_partitions);
    let ghost disk = block_device::flat(device@);
    let id: u64 = device.device_id;
    let s = match device.read_sectors(0, 1) {
        Ok(s) => s,
        Err(_) => {
            return Err(TableError::ReadHeader);
        },
    };
    let h = MbrHeader::decode(s.as_slice());
    if !h.is_valid() {
        return Err(TableError::InvalidSignature);
    }
    let mut out: Vec<Partition> = Vec::new();
    let mut i: usize = 0;
    let ghost whole = primaries(disk, id, s@, 0);
    assert(gpt::put_before(gpt::partition_views(out@), whole) == whole) by {
        if whole is Ok {
            assert(gpt::partition_views(out@) + whole->Ok_0 =~= whole->Ok_0);
        }
    }
    while i < 4
        invariant
            i <= 4,
            device.wf(),
            device@ == old(device)@,
            device.persisted() == old(device).persisted(),
            device.dirty() == old(device).dirty(),
            device.device_id == id,
            id == old(device).device_id,
            disk == block_device::flat(old(device)@),
            h.partitions@ == Seq::new(4, |i: int| dec_mbr_entry(s@, 446 + 16 * i)),
            mbr_partitions(disk, id) == whole,
            whole == gpt::put_before(
                gpt::partition_views(out@),
                primaries(disk, id, s@, i as int),
            ),
        decreases 4 - i,
    {
        let e = h.partitions[i];
        if e.is_used() {
            let t = match detect_filesystem(device, e.starting_lba()) {
                Ok(t) => t,
                Err(x) => {
                    return Err(x);
                },
            };
            let p = Partition {
                index: i,
                starting_lba: e.starting_lba(),
                ending_lba: e.ending_lba(),
                size_sectors: e.size_sectors(),
                partition_type: e.partition_type(),
                name: e.name(i),
                filesystem: Some(t),
                device_id: id,
                unique_partition_guid: generate_mbr_guid(id, i),
            };
            let ghost before = gpt::partition_views(out@);
            let ghost pv = p@;
            out.push(p);
            proof {
                assert(gpt::partition_views(out@) =~= before.push(pv));
                let rest = primaries(disk, id, s@, i + 1);
                if rest is Ok {
                    assert(before + (seq![pv] + rest->Ok_0) =~= before.push(pv) + rest->Ok_0);
                }
            }
        }
        i = i + 1;
    }
    assert(gpt::partition_views(out@) + Seq::<PartitionView>::empty()
        =~= gpt::partition_views(out@));
    Ok(out)
}

} // verus!
