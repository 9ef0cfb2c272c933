//! The on-disk structures of the FAT file systems.
use vstd::prelude::*;
use crate::bytes;
use crate::bytes::{bytes_eq, get_u16, get_u32, push_slice, push_u32, sub_vec, zero_vec};

verus! {

/// Which FAT file system a volume carries.
#[derive(Clone, Copy, PartialEq, Eq, Structural)]
pub enum FatVariant {
    Fat12,
    Fat16,
    Fat32,
}

/// Attribute: read-only.
pub const ATTR_READ_ONLY: u8 = 0x01;
/// Attribute: hidden.
pub const ATTR_HIDDEN: u8 = 0x02;
/// Attribute: system file.
pub const ATTR_SYSTEM: u8 = 0x04;
/// Attribute: volume label.
pub const ATTR_VOLUME_ID: u8 = 0x08;
/// Attribute: directory.
pub const ATTR_DIRECTORY: u8 = 0x10;
/// Attribute: changed since the last backup.
pub const ATTR_ARCHIVE: u8 = 0x20;
/// The attributes of a long name entry.
pub const ATTR_LONG_NAME: u8 = 0x0F;

/// FAT value of a free cluster.
pub const CLUSTER_FREE: u32 = 0x0000_0000;
/// FAT32 value of a bad cluster.
pub const CLUSTER_BAD: u32 = 0x0FFF_FFF7;
/// Least FAT32 value that ends a chain.
pub const CLUSTER_EOF: u32 = 0x0FFF_FFF8;

/// A volume with fewer clusters is FAT12.
pub const FAT12_CLUSTER_COUNT_MAX: u32 = 4085;
/// A volume with fewer clusters, and no fewer than the above, is FAT16.
pub const FAT16_CLUSTER_COUNT_MAX: u32 = 65525;

/// First signature of the FSInfo sector.
pub const FSINFO_LEAD_SIG: u32 = 0x4161_5252;
/// Second signature of the FSInfo sector.
pub const FSINFO_STRUCT_SIG: u32 = 0x6141_7272;
/// Last signature of the FSInfo sector.
pub const FSINFO_TRAIL_SIG: u32 = 0xAA55_0000;
/// A count or hint that is not known.
pub const FSINFO_UNKNOWN: u32 = 0xFFFF_FFFF;

// ---- Boot sector ----------------------------------------------------------------------

/// The boot sector: what it says of the volume, and the code it holds.
pub struct Fat32BootSector {
    /// The jump to the boot code.
    pub jmp_boot: Vec<u8>,
    /// The name of the system that formatted the volume.
    pub oem_name: Vec<u8>,
    pub bytes_per_sector: u16,
    pub sectors_per_cluster: u8,
    /// Sectors before the first FAT, the boot sector among them.
    pub reserved_sector_count: u16,
    pub num_fats: u8,
    /// Entries of the fixed root directory; 0 on FAT32.
    pub root_entry_count: u16,
    /// Sectors of the volume, or 0 if they do not fit.
    pub total_sectors_16: u16,
    /// What kind of medium the volume is on.
    pub media: u8,
    /// Sectors per FAT; 0 on FAT32.
    pub fat_size_16: u16,
    pub sectors_per_track: u16,
    pub num_heads: u16,
    /// Sectors before the volume.
    pub hidden_sectors: u32,
    pub total_sectors_32: u32,
    /// Sectors per FAT on FAT32.
    pub fat_size_32: u32,
    /// Which FAT is in use, and whether the others mirror it.
    pub ext_flags: u16,
    pub fs_version: u16,
    /// First cluster of the root directory on FAT32.
    pub root_cluster: u32,
    /// Sector of the FSInfo structure on FAT32.
    pub fs_info: u16,
    /// Sector of the copy of the boot sector.
    pub backup_boot_sector: u16,
    pub reserved: Vec<u8>,
    pub drive_number: u8,
    pub reserved1: u8,
    pub boot_signature: u8,
    /// Serial number of the volume.
    pub volume_id: u32,
    /// Eleven bytes.
    pub volume_label: Vec<u8>,
    /// Eight bytes.
    pub file_system_type: Vec<u8>,
    pub boot_code: Vec<u8>,
    pub boot_sector_signature: u16,
}

/// What a boot sector says.
#[verifier::ext_equal]
pub struct BootView {
    pub jmp_boot: Seq<u8>,
    pub oem_name: Seq<u8>,
    pub bytes_per_sector: u16,
    pub sectors_per_cluster: u8,
    pub reserved_sector_count: u16,
    pub num_fats: u8,
    pub root_entry_count: u16,
    pub total_sectors_16: u16,
    pub media: u8,
    pub fat_size_16: u16,
    pub sectors_per_track: u16,
    pub num_heads: u16,
    pub hidden_sectors: u32,
    pub total_sectors_32: u32,
    pub fat_size_32: u32,
    pub ext_flags: u16,
    pub fs_version: u16,
    pub root_cluster: u32,
    pub fs_info: u16,
    pub backup_boot_sector: u16,
    pub reserved: Seq<u8>,
    pub drive_number: u8,
    pub reserved1: u8,
    pub boot_signature: u8,
    pub volume_id: u32,
    pub volume_label: Seq<u8>,
    pub file_system_type: Seq<u8>,
    pub boot_code: Seq<u8>,
    pub boot_sector_signature: u16,
}

impl View for Fat32BootSector {
    type V = BootView;

    open spec fn view(&self) -> BootView {
        BootView {
            jmp_boot: self.jmp_boot@,
            oem_name: self.oem_name@,
            bytes_per_sector: self.bytes_per_sector,
            sectors_per_cluster: self.sectors_per_cluster,
            reserved_sector_count: self.reserved_sector_count,
            num_fats: self.num_fats,
            root_entry_count: self.root_entry_count,
            total_sectors_16: self.total_sectors_16,
            media: self.media,
            fat_size_16: self.fat_size_16,
            sectors_per_track: self.sectors_per_track,
            num_heads: self.num_heads,
            hidden_sectors: self.hidden_sectors,
            total_sectors_32: self.total_sectors_32,
            fat_size_32: self.fat_size_32,
            ext_flags: self.ext_flags,
            fs_version: self.fs_version,
            root_cluster: self.root_cluster,
            fs_info: self.fs_info,
            backup_boot_sector: self.backup_boot_sector,
            reserved: self.reserved@,
            drive_number: self.drive_number,
            reserved1: self.reserved1,
            boot_signature: self.boot_signature,
            volume_id: self.volume_id,
            volume_label: self.volume_label@,
            file_system_type: self.file_system_type@,
            boot_code: self.boot_code@,
            boot_sector_signature: self.boot_sector_signature,
        }
    }
}

/// The boot sector in `s`.
pub open spec fn dec_boot(s: Seq<u8>) -> BootView {
    BootView {
        jmp_boot: s.subrange(0, 3),
        oem_name: s.subrange(3, 11),
        bytes_per_sector: bytes::le16(s, 11),
        sectors_per_cluster: s[13],
        reserved_sector_count: bytes::le16(s, 14),
        num_fats: s[16],
        root_entry_count: bytes::le16(s, 17),
        total_sectors_16: bytes::le16(s, 19),
        media: s[21],
        fat_size_16: bytes::le16(s, 22),
        sectors_per_track: bytes::le16(s, 24),
        num_heads: bytes::le16(s, 26),
        hidden_sectors: bytes::le32(s, 28),
        total_sectors_32: bytes::le32(s, 32),
        fat_size_32: bytes::le32(s, 36),
        ext_flags: bytes::le16(s, 40),
        fs_version: bytes::le16(s, 42),
        root_cluster: bytes::le32(s, 44),
        fs_info: bytes::le16(s, 48),
        backup_boot_sector: bytes::le16(s, 50),
        reserved: s.subrange(52, 64),
        drive_number: s[64],
        reserved1: s[65],
        boot_signature: s[66],
        volume_id: bytes::le32(s, 67),
        volume_label: s.subrange(71, 82),
        file_system_type: s.subrange(82, 90),
        boot_code: s.subrange(90, 510),
        boot_sector_signature: bytes::le16(s, 510),
    }
}

/// Whether `n` is a power of two.
pub open spec fn power_of_two(n: u8) -> bool {
    n == 1 || n == 2 || n == 4 || n == 8 || n == 16 || n == 32 || n == 64 || n == 128
}

/// "FAT32".
pub open spec fn fat32_tag() -> Seq<u8> {
    seq![0x46u8, 0x41, 0x54, 0x33, 0x32]
}

/// Sectors of the fixed root directory.
pub open spec fn root_sectors(b: BootView) -> int {
    (b.root_entry_count * 32 + 511) / 512
}

/// Sectors of the volume.
pub open spec fn total_sectors(b: BootView) -> int {
    if b.total_sectors_16 != 0 {
        b.total_sectors_16 as int
    } else {
        b.total_sectors_32 as int
    }
}

/// Sectors of the data area that hold clusters.
pub open spec fn data_sectors(b: BootView) -> int {
    let fat = if b.fat_size_16 != 0 {
        b.fat_size_16 as int
    } else {
        b.fat_size_32 as int
    };
    let n = total_sectors(b) - b.reserved_sector_count - b.num_fats * fat - root_sectors(b);
    if n < 0 {
        0
    } else {
        n
    }
}

/// Clusters of the volume.
pub open spec fn cluster_count(b: BootView) -> int {
    data_sectors(b) / (b.sectors_per_cluster as int)
}

/// Whether the boot sector describes a FAT volume of any kind.
pub open spec fn plausible(b: BootView) -> bool {
    b.bytes_per_sector == 512 && power_of_two(b.sectors_per_cluster) && b.num_fats > 0
}

/// Which FAT file system the boot sector describes.
pub open spec fn variant_of(b: BootView) -> Option<FatVariant> {
    if !plausible(b) {
        None
    } else if cluster_count(b) < FAT12_CLUSTER_COUNT_MAX {
        Some(FatVariant::Fat12)
    } else if cluster_count(b) < FAT16_CLUSTER_COUNT_MAX {
        Some(FatVariant::Fat16)
    } else {
        Some(FatVariant::Fat32)
    }
}

/// Whether the boot sector is a proper FAT32 one.
pub open spec fn strictly_fat32(b: BootView) -> bool {
    plausible(b) && b.root_entry_count == 0 && b.total_sectors_16 == 0 && b.fat_size_16 == 0
        && b.fat_size_32 > 0 && b.boot_signature == 0x29 && b.file_system_type.len() >= 5
        && b.file_system_type.take(5) == fat32_tag()
}

fn is_power_of_two(n: u8) -> (r: bool)
    ensures
        r == power_of_two(n),
{
    n == 1 || n == 2 || n == 4 || n == 8 || n == 16 || n == 32 || n == 64 || n == 128
}

impl Fat32BootSector {
    /// Decodes a boot sector.
    pub fn decode(s: &[u8]) -> (b: Fat32BootSector)
        requires
            s.len() >= 512,
        ensures
            b@ == dec_boot(s@),
    {
        Fat32BootSector {
            jmp_boot: sub_vec(s, 0, 3),
            oem_name: sub_vec(s, 3, 11),
            bytes_per_sector: get_u16(s, 11),
            sectors_per_cluster: s[13],
            reserved_sector_count: get_u16(s, 14),
            num_fats: s[16],
            root_entry_count: get_u16(s, 17),
            total_sectors_16: get_u16(s, 19),
            media: s[21],
            fat_size_16: get_u16(s, 22),
            sectors_per_track: get_u16(s, 24),
            num_heads: get_u16(s, 26),
            hidden_sectors: get_u32(s, 28),
            total_sectors_32: get_u32(s, 32),
            fat_size_32: get_u32(s, 36),
            ext_flags: get_u16(s, 40),
            fs_version: get_u16(s, 42),
            root_cluster: get_u32(s, 44),
            fs_info: get_u16(s, 48),
            backup_boot_sector: get_u16(s, 50),
            reserved: sub_vec(s, 52, 64),
            drive_number: s[64],
            reserved1: s[65],
            boot_signature: s[66],
            volume_id: get_u32(s, 67),
            volume_label: sub_vec(s, 71, 82),
            file_system_type: sub_vec(s, 82, 90),
            boot_code: sub_vec(s, 90, 510),
            boot_sector_signature: get_u16(s, 510),
        }
    }

    /// First sector of the FAT.
    pub fn fat_start_sector(&self) -> (r: u32)
        ensures
            r == self@.reserved_sector_count,
    {
        self.reserved_sector_count as u32
    }

    /// First sector of the data area on FAT32.
    pub fn data_start_sector(&self) -> (r: u32)
        requires
            self@.reserved_sector_count + self@.num_fats * self@.fat_size_32 <= u32::MAX,
        ensures
            r == self@.reserved_sector_count + self@.num_fats * self@.fat_size_32,
    {
        let fats: u64 = self.num_fats as u64 * self.fat_size_32 as u64;
        assert(self.num_fats * self.fat_size_32 <= 255 * 0xFFFF_FFFF) by (nonlinear_arith)
            requires
                self.num_fats <= 255,
                self.fat_size_32 <= 0xFFFF_FFFF,
        ;
        self.fat_start_sector() + fats as u32
    }

    /// Sector of a cluster on FAT32.
    pub fn cluster_to_lba(&self, cluster: u32) -> (r: u32)
        requires
            cluster >= 2,
            self@.reserved_sector_count + self@.num_fats * self@.fat_size_32 + (cluster - 2)
                * self@.sectors_per_cluster <= u32::MAX,
        ensures
            r == self@.reserved_sector_count + self@.num_fats * self@.fat_size_32 + (cluster - 2)
                * self@.sectors_per_cluster,
    {
        assert((cluster - 2) * self@.sectors_per_cluster >= 0) by (nonlinear_arith)
            requires
                cluster >= 2,
        ;
        let fats: u64 = self.num_fats as u64 * self.fat_size_32 as u64;
        let base: u32 = self.data_start_sector();
        let n: u64 = (cluster as u64 - 2) * self.sectors_per_cluster as u64;
        base + n as u32
    }

    /// Bytes per cluster.
    pub fn bytes_per_cluster(&self) -> (r: u32)
        ensures
            r == self@.bytes_per_sector * self@.sectors_per_cluster,
    {
        assert(self.bytes_per_sector * self.sectors_per_cluster <= 0xFFFF * 0xFF)
            by (nonlinear_arith)
            requires
                self.bytes_per_sector <= 0xFFFF,
                self.sectors_per_cluster <= 0xFF,
        ;
        self.bytes_per_sector as u32 * self.sectors_per_cluster as u32
    }

    /// Sector of the FSInfo structure.
    pub fn fsinfo_lba(&self) -> (r: u32)
        ensures
            r == self@.fs_info,
    {
        self.fs_info as u32
    }

    /// Whether this is a proper FAT32 boot sector.
    pub fn is_fat32(&self) -> (r: bool)
        ensures
            r == strictly_fat32(self@),
    {
        if self.file_system_type.len() < 5 {
            return false;
        }
        let tag = sub_vec(self.file_system_type.as_slice(), 0, 5);
        let want: Vec<u8> = vec![0x46, 0x41, 0x54, 0x33, 0x32];
        assert(want@ =~= fat32_tag());
        assert(tag@ =~= self.file_system_type@.take(5));
        self.bytes_per_sector == 512 && is_power_of_two(self.sectors_per_cluster) && self.num_fats
            > 0 && self.root_entry_count == 0 && self.total_sectors_16 == 0 && self.fat_size_16
            == 0 && self.fat_size_32 > 0 && self.boot_signature == 0x29 && bytes_eq(
            tag.as_slice(),
            want.as_slice(),
        )
    }

    /// Which FAT file system this is, by its number of clusters.
    pub fn determine_fat_variant(&self) -> (r: Option<FatVariant>)
        ensures
            r == variant_of(self@),
    {
        if self.bytes_per_sector != 512 || !is_power_of_two(self.sectors_per_cluster)
            || self.num_fats == 0 {
            return None;
        }
        let n: u32 = self.calculate_cluster_count();
        if n < FAT12_CLUSTER_COUNT_MAX {
            Some(FatVariant::Fat12)
        } else if n < FAT16_CLUSTER_COUNT_MAX {
            Some(FatVariant::Fat16)
        } else {
            Some(FatVariant::Fat32)
        }
    }

    /// The number of clusters.
    pub fn calculate_cluster_count(&self) -> (r: u32)
        requires
            self@.sectors_per_cluster > 0,
        ensures
            r == cluster_count(self@),
    {
        let total: u64 = if self.total_sectors_16 != 0 {
            self.total_sectors_16 as u64
        } else {
            self.total_sectors_32 as u64
        };
        let fat: u64 = if self.fat_size_16 != 0 {
            self.fat_size_16 as u64
        } else {
            self.fat_size_32 as u64
        };
        assert(self.num_fats * fat <= 255 * 0xFFFF_FFFF) by (nonlinear_arith)
            requires
                self.num_fats <= 255,
                fat <= 0xFFFF_FFFF,
        ;
        let root: u64 = (self.root_entry_count as u64 * 32 + 511) / 512;
        let taken: u64 = self.reserved_sector_count as u64 + self.num_fats as u64 * fat + root;
        let data: u64 = if taken > total {
            0
        } else {
            total - taken
        };
        let spc: u64 = self.sectors_per_cluster as u64;
        assert(data / spc <= data) by (nonlinear_arith)
            requires
                spc > 0,
        ;
        (data / spc) as u32
    }
}

// ---- FSInfo ---------------------------------------------------------------------------

/// The FSInfo sector of a FAT32 volume.
pub struct FsInfo {
    pub lead_signature: u32,
    /// 480 bytes, kept as found.
    pub reserved1: Vec<u8>,
    pub struct_signature: u32,
    /// Free clusters, or [`FSINFO_UNKNOWN`].
    pub free_count: u32,
    /// Where to look for a free cluster, or [`FSINFO_UNKNOWN`].
    pub next_free: u32,
    /// Twelve bytes, kept as found.
    pub reserved2: Vec<u8>,
    pub trail_signature: u32,
}

/// What an FSInfo sector says.
#[verifier::ext_equal]
pub struct FsInfoView {
    pub lead_signature: u32,
    pub reserved1: Seq<u8>,
    pub struct_signature: u32,
    pub free_count: u32,
    pub next_free: u32,
    pub reserved2: Seq<u8>,
    pub trail_signature: u32,
}

impl View for FsInfo {
    type V = FsInfoView;

    open spec fn view(&self) -> FsInfoView {
        FsInfoView {
            lead_signature: self.lead_signature,
            reserved1: self.reserved1@,
            struct_signature: self.struct_signature,
            free_count: self.free_count,
            next_free: self.next_free,
            reserved2: self.reserved2@,
            trail_signature: self.trail_signature,
        }
    }
}

/// The FSInfo sector in `s`.
pub open spec fn dec_fsinfo(s: Seq<u8>) -> FsInfoView {
    FsInfoView {
        lead_signature: bytes::le32(s, 0),
        reserved1: s.subrange(4, 484),
        struct_signature: bytes::le32(s, 484),
        free_count: bytes::le32(s, 488),
        next_free: bytes::le32(s, 492),
        reserved2: s.subrange(496, 508),
        trail_signature: bytes::le32(s, 508),
    }
}

/// The bytes of an FSInfo sector.
#[verifier::opaque]
pub open spec fn enc_fsinfo(f: FsInfoView) -> Seq<u8> {
    bytes::bytes32(f.lead_signature) + f.reserved1 + bytes::bytes32(f.struct_signature)
        + bytes::bytes32(f.free_count) + bytes::bytes32(f.next_free) + f.reserved2
        + bytes::bytes32(f.trail_signature)
}

/// Whether an FSInfo sector carries its signatures.
pub open spec fn valid_fsinfo(f: FsInfoView) -> bool {
    f.lead_signature == FSINFO_LEAD_SIG && f.struct_signature == FSINFO_STRUCT_SIG
        && f.trail_signature == FSINFO_TRAIL_SIG
}

/// The fixed-length parts have their lengths.
pub open spec fn sized_fsinfo(f: FsInfoView) -> bool {
    f.reserved1.len() == 480 && f.reserved2.len() == 12
}

/// Decoding an encoded FSInfo sector gives it back.
pub proof fn fsinfo_round_trip(f: FsInfoView)
    requires
        sized_fsinfo(f),
    ensures
        enc_fsinfo(f).len() == 512,
        dec_fsinfo(enc_fsinfo(f)) == f,
{
    reveal(enc_fsinfo);
    let a = bytes::bytes32(f.lead_signature);
    let b = bytes::bytes32(f.struct_signature);
    let c = bytes::bytes32(f.free_count);
    let d = bytes::bytes32(f.next_free);
    let z = bytes::bytes32(f.trail_signature);
    let e = enc_fsinfo(f);
    assert(e.subrange(0, 4) =~= a);
    bytes::le32_round_trip(e, 0, f.lead_signature);
    assert(e.subrange(484, 488) =~= b);
    bytes::le32_round_trip(e, 484, f.struct_signature);
    assert(e.subrange(488, 492) =~= c);
    bytes::le32_round_trip(e, 488, f.free_count);
    assert(e.subrange(492, 496) =~= d);
    bytes::le32_round_trip(e, 492, f.next_free);
    assert(e.subrange(508, 512) =~= z);
    bytes::le32_round_trip(e, 508, f.trail_signature);
    assert(e.subrange(4, 484) =~= f.reserved1);
    assert(e.subrange(496, 508) =~= f.reserved2);
    assert(dec_fsinfo(e) =~= f);
}

impl FsInfo {
    /// A new FSInfo sector, with nothing known.
    pub fn new() -> (r: FsInfo)
        ensures
            r@ == (FsInfoView {
                lead_signature: FSINFO_LEAD_SIG,
                reserved1: bytes::zeros(480),
                struct_signature: FSINFO_STRUCT_SIG,
                free_count: FSINFO_UNKNOWN,
                next_free: FSINFO_UNKNOWN,
                reserved2: bytes::zeros(12),
                trail_signature: FSINFO_TRAIL_SIG,
            }),
    {
        FsInfo {
            lead_signature: FSINFO_LEAD_SIG,
            reserved1: zero_vec(480),
            struct_signature: FSINFO_STRUCT_SIG,
            free_count: FSINFO_UNKNOWN,
            next_free: FSINFO_UNKNOWN,
            reserved2: zero_vec(12),
            trail_signature: FSINFO_TRAIL_SIG,
        }
    }

    /// Decodes an FSInfo sector.
    pub fn decode(s: &[u8]) -> (f: FsInfo)
        requires
            s.len() >= 512,
        ensures
            f@ == dec_fsinfo(s@),
            sized_fsinfo(f@),
    {
        FsInfo {
            lead_signature: get_u32(s, 0),
            reserved1: sub_vec(s, 4, 484),
            struct_signature: get_u32(s, 484),
            free_count: get_u32(s, 488),
            next_free: get_u32(s, 492),
            reserved2: sub_vec(s, 496, 508),
            trail_signature: get_u32(s, 508),
        }
    }

    /// Encodes an FSInfo sector.
    pub fn encode(&self) -> (out: Vec<u8>)
        ensures
            out@ == enc_fsinfo(self@),
    {
        reveal(enc_fsinfo);
        let mut out: Vec<u8> = Vec::new();
        push_u32(&mut out, self.lead_signature);
        push_slice(&mut out, self.reserved1.as_slice());
        push_u32(&mut out, self.struct_signature);
        push_u32(&mut out, self.free_count);
        push_u32(&mut out, self.next_free);
        push_slice(&mut out, self.reserved2.as_slice());
        push_u32(&mut out, self.trail_signature);
        assert(Seq::<u8>::empty() + bytes::bytes32(self.lead_signature) =~= bytes::bytes32(
            self.lead_signature,
        ));
        out
    }

    /// Whether the signatures are right.
    pub fn is_valid(&self) -> (r: bool)
        ensures
            r == valid_fsinfo(self@),
    {
        self.lead_signature == FSINFO_LEAD_SIG && self.struct_signature == FSINFO_STRUCT_SIG
            && self.trail_signature == FSINFO_TRAIL_SIG
    }

    /// Whether the number of free clusters is known.
    pub fn has_free_count(&self) -> (r: bool)
        ensures
            r == (self@.free_count != FSINFO_UNKNOWN),
    {
        self.free_count != FSINFO_UNKNOWN
    }

    /// Whether there is a hint where to look for a free cluster.
    pub fn has_next_free_hint(&self) -> (r: bool)
        ensures
            r == (self@.next_free != FSINFO_UNKNOWN),
    {
        self.next_free != FSINFO_UNKNOWN
    }

    /// Sets the number of free clusters.
    pub fn update_free_count(&mut self, new_count: u32)
        ensures
            final(self)@ == (FsInfoView { free_count: new_count, ..old(self)@ }),
    {
        self.free_count = new_count;
    }

    /// Sets the hint where to look for a free cluster.
    pub fn update_next_free(&mut self, next_cluster: u32)
        ensures
            final(self)@ == (FsInfoView { next_free: next_cluster, ..old(self)@ }),
    {
        self.next_free = next_cluster;
    }
}

} // verus!
