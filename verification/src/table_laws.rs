//! What a look at a disk finds: every used entry of a partition table is a partition, in its
//! place, and the file system that is reported for it is the one that can be mounted.
use vstd::prelude::*;
use crate::block_device;
use crate::bytes;
use crate::efs;
use crate::error::Error;
use crate::fat32::structures;
use crate::fat32::structures::FatVariant;
use crate::gpt;
use crate::gpt::{FilesystemType, PartitionView, TableError};
use crate::manager;
use crate::manager::{ManagerState, MountView, Source};
use crate::mbr;

verus! {

// ---- File systems -----------------------------------------------------------------------

/// Whether a boot sector carries what makes it one of FAT32, apart from its signature: 512 bytes
/// to a sector, a power of two of sectors to a cluster, at least one FAT, neither a root
/// directory of fixed size nor 16-bit sizes, a 32-bit FAT size, and "FAT32" behind its mark.
pub open spec fn fat32_boot(s: Seq<u8>) -> bool {
    &&& s[11] == 0 && s[12] == 2
    &&& s[13] == 1 || s[13] == 2 || s[13] == 4 || s[13] == 8 || s[13] == 16 || s[13] == 32 || s[13]
        == 64 || s[13] == 128
    &&& s[16] > 0
    &&& s[17] == 0 && s[18] == 0
    &&& s[19] == 0 && s[20] == 0
    &&& s[22] == 0 && s[23] == 0
    &&& !(s[36] == 0 && s[37] == 0 && s[38] == 0 && s[39] == 0)
    &&& s[66] == 0x29
    &&& s[82] == 0x46 && s[83] == 0x41 && s[84] == 0x54 && s[85] == 0x33 && s[86] == 0x32
}

proof fn lemma_fat32_boot(s: Seq<u8>)
    requires
        s.len() >= 512,
    ensures
        structures::strictly_fat32(structures::dec_boot(s)) == fat32_boot(s),
{
    let b = structures::dec_boot(s);
    let t = b.file_system_type.take(5);
    let tag = seq![0x46u8, 0x41, 0x54, 0x33, 0x32];
    if fat32_boot(s) {
        assert(t =~= tag);
    } else if t == tag {
        assert(t[0] == s[82] && t[1] == s[83] && t[2] == s[84] && t[3] == s[85] && t[4] == s[86]);
        assert(tag[0] == 0x46 && tag[1] == 0x41 && tag[2] == 0x54 && tag[3] == 0x33 && tag[4]
            == 0x32);
    }
    assert(bytes::le16(s, 11) == 512 <==> s[11] == 0 && s[12] == 2);
    assert(bytes::le32(s, 36) == 0 <==> s[36] == 0 && s[37] == 0 && s[38] == 0 && s[39] == 0);
}

/// A boot sector is reported as FAT32 exactly if it carries the signature and what makes it one;
/// without the signature none of the FAT family is reported. In a GUID partition table the
/// signature is not asked for, and nothing but FAT32 is told.
pub proof fn fat32_is_reported_as_fat32(s: Seq<u8>)
    requires
        s.len() >= 512,
    ensures
        mbr::fat_family(s) == Some(FilesystemType::Fat32) <==> s[510] == 0x55 && s[511] == 0xAA
            && fat32_boot(s),
        !(s[510] == 0x55 && s[511] == 0xAA) ==> mbr::fat_family(s) is None,
        gpt::boot_filesystem(s) == FilesystemType::Fat32 <==> fat32_boot(s),
        gpt::boot_filesystem(s) == FilesystemType::Unknown <==> !fat32_boot(s),
{
    lemma_fat32_boot(s);
}

/// The type that goes with what the FAT driver takes a volume for.
pub open spec fn type_of(v: FatVariant) -> FilesystemType {
    match v {
        FatVariant::Fat12 => FilesystemType::Fat12,
        FatVariant::Fat16 => FilesystemType::Fat16,
        FatVariant::Fat32 => FilesystemType::Fat32,
    }
}

/// The FAT type that is reported for a volume is the one that the driver takes it for when it
/// mounts the same boot sector. This leaves out volumes for which the type is guessed from who
/// made them, and volumes that are marked as FAT32 with fewer clusters than FAT32 has.
pub proof fn reported_type_agrees_with_the_driver(s: Seq<u8>)
    requires
        s.len() >= 512,
        mbr::fat_family(s) is Some,
        structures::variant_of(structures::dec_boot(s)) is Some,
        ({
            let n = structures::cluster_count(structures::dec_boot(s));
            ||| fat32_boot(s) && n >= 65525
            ||| bytes::le16(s, 22) > 0 && bytes::le32(s, 32) == 0 && s[16] <= 2 && n > 0
        }),
    ensures
        mbr::fat_family(s) == Some(
            type_of(structures::variant_of(structures::dec_boot(s))->Some_0),
        ),
{
    lemma_fat32_boot(s);
    let b = structures::dec_boot(s);
    if !fat32_boot(s) {
        assert(mbr::small_clusters(b) == structures::cluster_count(b));
        assert(mbr::small_fat(b));
    } else {
        assert(bytes::le16(s, 22) == 0);
    }
}

/// A boot sector with the signature that describes neither FAT32 nor a volume with a 16-bit FAT
/// size is taken for FAT16 if it has sectors of 512 bytes and either starts with a jump or names a
/// maker of FAT volumes and has clusters of up to 64 sectors; else it is none of the family.
pub proof fn unusual_boot_sectors_are_guessed(s: Seq<u8>)
    requires
        s.len() >= 512,
        s[510] == 0x55,
        s[511] == 0xAA,
        !fat32_boot(s),
        bytes::le16(s, 22) == 0 || bytes::le32(s, 32) != 0 || s[16] == 0 || s[16] > 2,
    ensures
        ({
            let jump = s[0] == 0xEB || s[0] == 0xE9;
            let made = mbr::fat_maker(s.subrange(3, 11)) && 1 <= s[13] <= 64;
            mbr::fat_family(s) == (if bytes::le16(s, 11) == 512 && (jump || made) {
                Some(FilesystemType::Fat16)
            } else {
                None
            })
        }),
{
    lemma_fat32_boot(s);
    assert(s.subrange(0, 3)[0] == s[0]);
}

/// The eight sectors of a page.
proof fn lemma_page_sectors(pages: block_device::Pages, k: int)
    requires
        block_device::full_pages(pages),
        0 <= k < pages.len(),
    ensures
        block_device::sectors(block_device::flat(pages), k * 8, 8) == Some(pages[k]),
{
    let disk = block_device::flat(pages);
    let d = disk.subrange(k * 8 * 512, (k * 8 + 8) * 512);
    let p = pages[k];
    assert(p.len() == 4096);
    assert forall|x: int| 0 <= x < 4096 implies d[x] == p[x] by {
        assert(d[x] == disk[k * 4096 + x]);
        assert((k * 4096 + x) / 4096 == k && (k * 4096 + x) % 4096 == x);
    }
    assert(d =~= p);
}

proof fn lemma_mountable(pages: block_device::Pages, base: int)
    requires
        efs::mount::mount_error(pages, base) is None,
    ensures
        base + 1 < pages.len(),
        bytes::le64(pages[base + 1], 0) == 0x4546_5321,
{
    reveal(efs::mount::mount_error);
}

/// A volume that can be mounted as EFS is reported as EFS.
pub proof fn mountable_efs_is_reported(pages: block_device::Pages, base: int)
    requires
        block_device::full_pages(pages),
        0 <= base,
        efs::mount::mount_error(pages, base) is None,
    ensures
        mbr::detected(block_device::flat(pages), base * 8) == Ok::<FilesystemType, TableError>(
            FilesystemType::Efs,
        ),
{
    lemma_mountable(pages, base);
    lemma_page_sectors(pages, base + 1);
    let disk = block_device::flat(pages);
    assert((base + 1) * 8 == base * 8 + 8);
    assert(mbr::is_efs(disk, base * 8)) by {
        let p = pages[base + 1];
        assert(bytes::le64(p, 0) == bytes::le32(p, 0) + 0x1_0000_0000 * bytes::le32(p, 4));
    }
    assert(block_device::sectors(disk, base * 8, 1) is Some);
    reveal(mbr::detected);
}

/// The file system of a partition is the first of these that shows: EFS by its magic number in the
/// ninth sector, ISO 9660 by a volume descriptor, the FAT family and NTFS by the first sector.
/// Without any of them it is unknown, and without a first sector none is told.
pub proof fn file_systems_are_told_apart(disk: Seq<u8>, lba: int)
    requires
        0 <= lba,
    ensures
        512 * (lba + 1) > disk.len() ==> mbr::detected(disk, lba) == Err::<
            FilesystemType,
            TableError,
        >(TableError::ReadBootSector),
        512 * (lba + 1) <= disk.len() ==> ({
            let s = disk.subrange(512 * lba, 512 * (lba + 1));
            let m = 512 * (lba + 8);
            let efs = 512 * (lba + 16) <= disk.len() && disk[m] == 0x21 && disk[m + 1] == 0x53
                && disk[m + 2] == 0x46 && disk[m + 3] == 0x45;
            let iso = mbr::is_iso9660(disk, lba);
            let ntfs = s[3] == 0x4E && s[4] == 0x54 && s[5] == 0x46 && s[6] == 0x53 && s[7] == 0x20
                && s[8] == 0x20 && s[9] == 0x20 && s[10] == 0x20 && (bytes::le16(s, 11) == 512
                || bytes::le16(s, 11) == 1024 || bytes::le16(s, 11) == 2048 || bytes::le16(s, 11)
                == 4096);
            mbr::detected(disk, lba) == Ok::<FilesystemType, TableError>(
                if efs {
                    FilesystemType::Efs
                } else if iso {
                    FilesystemType::Iso9660
                } else if mbr::fat_family(s) is Some {
                    mbr::fat_family(s)->Some_0
                } else if ntfs {
                    FilesystemType::Ntfs
                } else {
                    FilesystemType::Unknown
                },
            )
        }),
{
    reveal(mbr::detected);
    if 512 * (lba + 1) <= disk.len() {
        let s = disk.subrange(512 * lba, 512 * (lba + 1));
        let t = s.subrange(3, 11);
        let tag = seq![0x4Eu8, 0x54, 0x46, 0x53, 0x20, 0x20, 0x20, 0x20];
        if s[3] == 0x4E && s[4] == 0x54 && s[5] == 0x46 && s[6] == 0x53 && s[7] == 0x20 && s[8]
            == 0x20 && s[9] == 0x20 && s[10] == 0x20 {
            assert(t =~= tag);
        } else if t == tag {
            assert(t[0] == s[3] && t[1] == s[4] && t[2] == s[5] && t[3] == s[6] && t[4] == s[7]
                && t[5] == s[8] && t[6] == s[9] && t[7] == s[10]);
            assert(tag[0] == 0x4E && tag[1] == 0x54 && tag[2] == 0x46 && tag[3] == 0x53 && tag[4]
                == 0x20 && tag[5] == 0x20 && tag[6] == 0x20 && tag[7] == 0x20);
        }
        if 512 * (lba + 16) <= disk.len() {
            let d = disk.subrange(512 * (lba + 8), 512 * (lba + 16));
            let m = 512 * (lba + 8);
            assert(d[0] == disk[m] && d[1] == disk[m + 1] && d[2] == disk[m + 2] && d[3] == disk[m
                + 3]);
            assert(bytes::le32(d, 0) == 0x4546_5321 <==> d[0] == 0x21 && d[1] == 0x53 && d[2] == 0x46
                && d[3] == 0x45);
        }
    }
}

/// A volume descriptor of ISO 9660 is a sector that begins with one and "CD001"; a partition
/// carries it sixteen sectors in, or, in hybrid images that do not start the disk, in its first
/// sector or thirty-two sectors in.
pub proof fn volume_descriptors_are_known(disk: Seq<u8>, lba: int)
    requires
        0 <= lba,
        512 * (lba + 33) <= disk.len(),
    ensures
        mbr::is_iso9660(disk, lba) <==> cd_at(disk, 512 * (lba + 16)) || (lba > 0 && (cd_at(
            disk,
            512 * lba,
        ) || cd_at(disk, 512 * (lba + 32)))),
{
    lemma_cd_at(disk, lba);
    lemma_cd_at(disk, lba + 16);
    lemma_cd_at(disk, lba + 32);
}

/// Whether there is a one and "CD001" at byte `at`.
pub open spec fn cd_at(disk: Seq<u8>, at: int) -> bool {
    disk[at] == 1 && disk[at + 1] == 0x43 && disk[at + 2] == 0x44 && disk[at + 3] == 0x30 && disk[at
        + 4] == 0x30 && disk[at + 5] == 0x31
}

proof fn lemma_cd_at(disk: Seq<u8>, lba: int)
    requires
        0 <= lba,
        512 * (lba + 1) <= disk.len(),
    ensures
        mbr::descriptor_at(disk, lba) == cd_at(disk, 512 * lba),
{
    let s = disk.subrange(lba * 512, (lba + 1) * 512);
    let t = s.subrange(1, 6);
    let tag = seq![0x43u8, 0x44, 0x30, 0x30, 0x31];
    let at = 512 * lba;
    assert(s[0] == disk[at]);
    assert(t[0] == disk[at + 1] && t[1] == disk[at + 2] && t[2] == disk[at + 3] && t[3] == disk[at
        + 4] && t[4] == disk[at + 5]);
    if cd_at(disk, at) {
        assert(t =~= tag);
    } else if t == tag {
        assert(tag[0] == 0x43 && tag[1] == 0x44 && tag[2] == 0x30 && tag[3] == 0x30 && tag[4]
            == 0x31);
    }
}

// ---- Master boot records ----------------------------------------------------------------

/// Where entry `i` of a master boot record lies.
pub open spec fn mbr_at(i: int) -> int {
    446 + 16 * i
}

/// Whether a partition is what entry `i` of the master boot record of `disk` says.
pub open spec fn as_entry_says(disk: Seq<u8>, device_id: u64, p: PartitionView, i: int) -> bool {
    &&& p.index == i
    &&& p.device_id == device_id
    &&& disk[mbr_at(i) + 4] != 0
    &&& p.starting_lba == bytes::le32(disk, mbr_at(i) + 8)
    &&& p.size_sectors == bytes::le32(disk, mbr_at(i) + 12)
    &&& p.size_sectors > 0 ==> p.ending_lba + 1 == p.starting_lba + p.size_sectors
    &&& p.partition_type == mbr::type_of_byte(disk[mbr_at(i) + 4])
    &&& p.filesystem is Some
    &&& mbr::detected(disk, bytes::le32(disk, mbr_at(i) + 8) as int) == Ok::<
        FilesystemType,
        TableError,
    >(p.filesystem->Some_0)
}

/// Whether partitions are those that the entries from `i` on stand for, in their order.
pub open spec fn all_entries(disk: Seq<u8>, device_id: u64, ps: Seq<PartitionView>, i: int) -> bool {
    &&& forall|k: int|
        0 <= k < ps.len() ==> i <= (#[trigger] ps[k]).index < 4 && as_entry_says(
            disk,
            device_id,
            ps[k],
            ps[k].index,
        )
    &&& forall|k: int, l: int|
        0 <= k < l < ps.len() ==> (#[trigger] ps[k]).index < (#[trigger] ps[l]).index
    &&& forall|j: int|
        i <= j < 4 && #[trigger] disk[mbr_at(j) + 4] != 0 ==> exists|k: int|
            0 <= k < ps.len() && (#[trigger] ps[k]).index == j
}

#[verifier::spinoff_prover]
#[verifier::rlimit(40)]
proof fn lemma_primaries(disk: Seq<u8>, device_id: u64, s: Seq<u8>, i: int)
    requires
        disk.len() >= 512,
        s == disk.subrange(0, 512),
        0 <= i <= 4,
        mbr::primaries(disk, device_id, s, i) is Ok,
    ensures
        all_entries(disk, device_id, mbr::primaries(disk, device_id, s, i)->Ok_0, i),
    decreases 4 - i,
{
    if i < 4 {
        let e = mbr::dec_mbr_entry(s, 446 + 16 * i);
        let ps = mbr::primaries(disk, device_id, s, i)->Ok_0;
        let at = mbr_at(i);
        assert(s[at + 4] == disk[at + 4]);
        assert(s.subrange(at + 8, at + 12) =~= disk.subrange(at + 8, at + 12));
        assert(s.subrange(at + 12, at + 16) =~= disk.subrange(at + 12, at + 16));
        bytes::lemma_le_same(s, at + 8, disk, at + 8, 4);
        bytes::lemma_le_same(s, at + 12, disk, at + 12, 4);
        lemma_primaries(disk, device_id, s, i + 1);
        let rest = mbr::primaries(disk, device_id, s, i + 1)->Ok_0;
        if disk[at + 4] != 0 {
            let t = mbr::detected(disk, e.start_lba as int)->Ok_0;
            let p = mbr::described(e, i, device_id, t);
            assert(ps == seq![p] + rest);
            assert(as_entry_says(disk, device_id, p, i));
            assert(ps[0] == p);
            assert forall|k: int| 0 <= k < ps.len() implies i <= (#[trigger] ps[k]).index < 4
                && as_entry_says(disk, device_id, ps[k], ps[k].index) by {
                if k > 0 {
                    assert(ps[k] == rest[k - 1]);
                }
            }
            assert forall|k: int, l: int| 0 <= k < l < ps.len() implies (#[trigger] ps[k]).index < (
            #[trigger] ps[l]).index by {
                assert(ps[l] == rest[l - 1]);
                if k > 0 {
                    assert(ps[k] == rest[k - 1]);
                }
            }
            assert forall|j: int| i <= j < 4 && #[trigger] disk[mbr_at(j) + 4] != 0 implies exists|
                k: int,
            |
                0 <= k < ps.len() && (#[trigger] ps[k]).index == j by {
                if j > i {
                    let k = choose|k: int| 0 <= k < rest.len() && (#[trigger] rest[k]).index == j;
                    assert(ps[k + 1] == rest[k]);
                }
            }
        } else {
            assert(ps == rest);
        }
    }
}

/// The partitions of a disk with a master boot record are those of its four entries whose type
/// is not zero, every one of them and in their order, each with the place and the size that its
/// entry gives and with the file system that is found there. A disk without the signature has
/// no such partitions.
pub proof fn master_boot_record_is_read_whole(disk: Seq<u8>, device_id: u64)
    ensures
        mbr::mbr_partitions(disk, device_id) matches Ok(ps) ==> disk.len() >= 512 && disk[510] == 0x55
            && disk[511] == 0xAA && all_entries(disk, device_id, ps, 0),
        disk.len() < 512 ==> mbr::mbr_partitions(disk, device_id) == Err::<
            Seq<PartitionView>,
            TableError,
        >(TableError::ReadHeader),
        disk.len() >= 512 && !(disk[510] == 0x55 && disk[511] == 0xAA) ==> mbr::mbr_partitions(
            disk,
            device_id,
        ) == Err::<Seq<PartitionView>, TableError>(TableError::InvalidSignature),
{
    reveal(mbr::mbr_partitions);
    if disk.len() >= 512 {
        let s = disk.subrange(0, 512);
        assert(s[510] == disk[510] && s[511] == disk[511]);
        if mbr::mbr_partitions(disk, device_id) is Ok {
            lemma_primaries(disk, device_id, s, 0);
        }
    }
}

/// Each type byte stands for one use, and each that is not known for itself.
pub proof fn type_bytes_have_their_meaning(t: u8)
    ensures
        mbr::type_of_byte(t) == gpt::PartitionType::Fat12 <==> t == 0x01,
        mbr::type_of_byte(t) == gpt::PartitionType::Fat16Small <==> t == 0x04,
        mbr::type_of_byte(t) == gpt::PartitionType::Fat16 <==> t == 0x06,
        mbr::type_of_byte(t) == gpt::PartitionType::Fat32 <==> t == 0x0B || t == 0x0C,
        mbr::type_of_byte(t) == gpt::PartitionType::Ntfs <==> t == 0x07,
        mbr::type_of_byte(t) == gpt::PartitionType::LinuxSwap <==> t == 0x82,
        mbr::type_of_byte(t) == gpt::PartitionType::LinuxFilesystem <==> t == 0x83,
        mbr::type_of_byte(t) == gpt::PartitionType::Extended <==> t == 0x05 || t == 0x0F || t
            == 0x85,
        mbr::type_of_byte(t) == gpt::PartitionType::EfiSystemMbr <==> t == 0xEF,
        mbr::type_of_byte(t) is MbrUnknown ==> mbr::type_of_byte(t) == gpt::PartitionType::MbrUnknown(
            t,
        ),
        !(mbr::type_of_byte(t) is EfiSystem) && !(mbr::type_of_byte(t) is MicrosoftBasicData)
            && !(mbr::type_of_byte(t) is Unknown),
{
}

/// Each type identifier stands for one use, and each that is not known for itself.
pub proof fn type_identifiers_have_their_meaning(g: gpt::Guid)
    ensures
        gpt::type_of_guid(g) == gpt::PartitionType::EfiSystem <==> g.low == 0x11D2_F81F_C12A_7328
            && g.high == 0x3BC9_3EC9_A000_4BBA,
        gpt::type_of_guid(g) == gpt::PartitionType::MicrosoftBasicData <==> g.low
            == 0x4433_B9E5_EBD0_A0A2 && g.high == 0xC799_26B7_B668_C087,
        gpt::type_of_guid(g) == gpt::PartitionType::LinuxFilesystem <==> g.low
            == 0x4772_8483_0FC6_3DAF && g.high == 0xE47D_47D8_693D_798E,
        gpt::type_of_guid(g) == gpt::PartitionType::LinuxSwap <==> g.low == 0x44C4_A4AB_0657_FD6D
            && g.high == 0x4F4F_4BC8_3309_E584,
        gpt::type_of_guid(g) is EfiSystem || gpt::type_of_guid(g) is MicrosoftBasicData
            || gpt::type_of_guid(g) is LinuxFilesystem || gpt::type_of_guid(g) is LinuxSwap
            || gpt::type_of_guid(g) == gpt::PartitionType::Unknown(g),
{
}

// ---- GUID partition tables --------------------------------------------------------------

/// Size of an entry of the GUID partition table of `disk`.
pub open spec fn gpt_size(disk: Seq<u8>) -> int {
    bytes::le32(disk, 596) as int
}

/// Number of its entries.
pub open spec fn gpt_count(disk: Seq<u8>) -> int {
    bytes::le32(disk, 592) as int
}

/// Where its entries begin.
pub open spec fn gpt_first(disk: Seq<u8>) -> int {
    512 * bytes::le64(disk, 584)
}

/// Sectors that hold its entries.
pub open spec fn gpt_sectors(disk: Seq<u8>) -> int {
    (gpt_count(disk) + 512int / gpt_size(disk) - 1) / (512int / gpt_size(disk))
}

/// Whether the entry at byte `at` is used: its type is not zero.
pub open spec fn gpt_used(disk: Seq<u8>, at: int) -> bool {
    !(bytes::le64(disk, at) == 0 && bytes::le64(disk, at + 8) == 0)
}

/// Whether a partition is what entry `i` at byte `at` says.
pub open spec fn as_guid_entry_says(
    disk: Seq<u8>,
    device_id: u64,
    p: PartitionView,
    i: int,
    at: int,
) -> bool {
    &&& p.index == i
    &&& p.device_id == device_id
    &&& gpt_used(disk, at)
    &&& p.partition_type == gpt::type_of_guid(
        gpt::Guid { low: bytes::le64(disk, at), high: bytes::le64(disk, at + 8) },
    )
    &&& p.unique_partition_guid.low == bytes::le64(disk, at + 16)
    &&& p.unique_partition_guid.high == bytes::le64(disk, at + 24)
    &&& p.starting_lba == bytes::le64(disk, at + 32)
    &&& p.ending_lba == bytes::le64(disk, at + 40)
    &&& p.starting_lba <= p.ending_lba < u64::MAX ==> p.starting_lba + p.size_sectors
        == p.ending_lba + 1
    &&& p.starting_lba > p.ending_lba ==> p.size_sectors == 0
    &&& 512 * (p.starting_lba + 1) <= disk.len()
    &&& p.filesystem == Some(
        if fat32_boot(disk.subrange(512 * p.starting_lba, 512 * (p.starting_lba + 1))) {
            FilesystemType::Fat32
        } else {
            FilesystemType::Unknown
        },
    )
}

/// Where entry `i` of `size` bytes lies in a table that begins at byte `first`.
pub open spec fn gpt_at(first: int, size: int, i: int) -> int {
    first + i * size
}

/// Whether partitions are those that the entries from `i` up to `n` stand for, as far as they lie
/// before byte `end`, in their order.
pub open spec fn all_guid_entries(
    disk: Seq<u8>,
    device_id: u64,
    ps: Seq<PartitionView>,
    first: int,
    size: int,
    i: int,
    n: int,
    end: int,
) -> bool {
    &&& forall|k: int|
        0 <= k < ps.len() ==> i <= (#[trigger] ps[k]).index < n && as_guid_entry_says(
            disk,
            device_id,
            ps[k],
            ps[k].index,
            gpt_at(first, size, ps[k].index),
        )
    &&& forall|k: int, l: int|
        0 <= k < l < ps.len() ==> (#[trigger] ps[k]).index < (#[trigger] ps[l]).index
    &&& forall|j: int|
        i <= j < n && #[trigger] gpt_at(first, size, j) + 128 <= end && gpt_used(
            disk,
            gpt_at(first, size, j),
        ) ==> exists|k: int| 0 <= k < ps.len() && (#[trigger] ps[k]).index == j
}

proof fn lemma_number_in(disk: Seq<u8>, data: Seq<u8>, first: int, x: int)
    requires
        0 <= first,
        0 <= x,
        x + 8 <= data.len(),
        first + data.len() <= disk.len(),
        data == disk.subrange(first, first + data.len()),
    ensures
        bytes::le64(data, x) == bytes::le64(disk, first + x),
{
    assert(data.subrange(x, x + 8) =~= disk.subrange(first + x, first + x + 8));
    bytes::lemma_le_same(data, x, disk, first + x, 8);
}

/// An entry reads the same in the sectors that were read as on the disk.
#[verifier::spinoff_prover]
#[verifier::rlimit(40)]
proof fn lemma_guid_entry(disk: Seq<u8>, data: Seq<u8>, first: int, off: int, device_id: u64, i: int)
    requires
        0 <= first,
        0 <= off,
        off + 128 <= data.len(),
        first + data.len() <= disk.len(),
        data == disk.subrange(first, first + data.len()),
    ensures
        ({
            let e = gpt::dec_gpt_entry(data, off);
            &&& (e.partition_type_guid == (gpt::Guid { low: 0, high: 0 })) == !gpt_used(
                disk,
                first + off,
            )
            &&& e.starting_lba == bytes::le64(disk, first + off + 32)
            &&& gpt_used(disk, first + off) && 512 * (e.starting_lba + 1) <= disk.len()
                ==> as_guid_entry_says(
                disk,
                device_id,
                gpt::described(
                    e,
                    i,
                    device_id,
                    disk.subrange(512 * e.starting_lba, 512 * (e.starting_lba + 1)),
                ),
                i,
                first + off,
            )
        }),
{
    let e = gpt::dec_gpt_entry(data, off);
    lemma_number_in(disk, data, first, off);
    lemma_number_in(disk, data, first, off + 8);
    lemma_number_in(disk, data, first, off + 16);
    lemma_number_in(disk, data, first, off + 24);
    lemma_number_in(disk, data, first, off + 32);
    lemma_number_in(disk, data, first, off + 40);
    if 512 * (e.starting_lba + 1) <= disk.len() {
        lemma_fat32_boot(disk.subrange(512 * e.starting_lba, 512 * (e.starting_lba + 1)));
    }
}

#[verifier::spinoff_prover]
#[verifier::rlimit(60)]
proof fn lemma_guid_entries(
    disk: Seq<u8>,
    device_id: u64,
    data: Seq<u8>,
    first: int,
    size: int,
    i: int,
    n: int,
)
    requires
        0 <= first,
        0 < size,
        0 <= i <= n,
        first + data.len() <= disk.len(),
        data == disk.subrange(first, first + data.len()),
        gpt::entries_from(disk, device_id, data, size, i, n) is Ok,
    ensures
        all_guid_entries(
            disk,
            device_id,
            gpt::entries_from(disk, device_id, data, size, i, n)->Ok_0,
            first,
            size,
            i,
            n,
            first + data.len(),
        ),
    decreases n - i,
{
    let ps = gpt::entries_from(disk, device_id, data, size, i, n)->Ok_0;
    let end = first + data.len();
    if i >= n {
    } else if i * size + 128 > data.len() {
        assert forall|j: int| i <= j < n && #[trigger] gpt_at(first, size, j) + 128 <= end implies
            false by {
            assert(j * size >= i * size) by (nonlinear_arith)
                requires
                    j >= i,
                    size > 0,
            ;
        }
    } else {
        assert(i * size >= 0) by (nonlinear_arith)
            requires
                i >= 0,
                size > 0,
        ;
        let e = gpt::dec_gpt_entry(data, i * size);
        lemma_guid_entry(disk, data, first, i * size, device_id, i);
        lemma_guid_entries(disk, device_id, data, first, size, i + 1, n);
        let rest = gpt::entries_from(disk, device_id, data, size, i + 1, n)->Ok_0;
        assert(gpt_at(first, size, i) == first + i * size);
        if gpt_used(disk, first + i * size) {
            let boot = block_device::sectors(disk, e.starting_lba as int, 1)->Some_0;
            let p = gpt::described(e, i, device_id, boot);
            assert(boot == disk.subrange(512 * e.starting_lba, 512 * (e.starting_lba + 1)));
            assert(ps == seq![p] + rest);
            assert(ps[0] == p);
            assert forall|k: int| 0 <= k < ps.len() implies i <= (#[trigger] ps[k]).index < n
                && as_guid_entry_says(
                disk,
                device_id,
                ps[k],
                ps[k].index,
                gpt_at(first, size, ps[k].index),
            ) by {
                if k > 0 {
                    assert(ps[k] == rest[k - 1]);
                }
            }
            assert forall|k: int, l: int| 0 <= k < l < ps.len() implies (#[trigger] ps[k]).index < (
            #[trigger] ps[l]).index by {
                assert(ps[l] == rest[l - 1]);
                if k > 0 {
                    assert(ps[k] == rest[k - 1]);
                }
            }
            assert forall|j: int|
                i <= j < n && #[trigger] gpt_at(first, size, j) + 128 <= end && gpt_used(
                    disk,
                    gpt_at(first, size, j),
                ) implies exists|k: int| 0 <= k < ps.len() && (#[trigger] ps[k]).index == j by {
                if j > i {
                    let k = choose|k: int| 0 <= k < rest.len() && (#[trigger] rest[k]).index == j;
                    assert(ps[k + 1] == rest[k]);
                }
            }
        } else {
            assert(ps == rest);
        }
    }
}

/// The partitions of a disk with a GUID partition table are those of the entries of the table
/// that are used, every one of them and in their order, each with the place and the identifier
/// that its entry gives and with the file system that its first sector shows. Without the
/// signature, or with entries of no size or of more than a sector, there is no table.
#[verifier::spinoff_prover]
#[verifier::rlimit(40)]
pub proof fn guid_table_is_read_whole(disk: Seq<u8>, device_id: u64)
    requires
        disk.len() >= 1024,
        0 < gpt_size(disk) <= 512 ==> gpt_sectors(disk) < 65536,
    ensures
        gpt::gpt_partitions(disk, device_id) matches Ok(ps) ==> {
            &&& bytes::le64(disk, 512) == 0x5452_4150_2049_4645
            &&& 0 < gpt_size(disk) <= 512
            &&& all_guid_entries(
                disk,
                device_id,
                ps,
                gpt_first(disk),
                gpt_size(disk),
                0,
                gpt_count(disk),
                gpt_first(disk) + 512 * gpt_sectors(disk),
            )
        },
        bytes::le64(disk, 512) != 0x5452_4150_2049_4645 ==> gpt::gpt_partitions(disk, device_id)
            == Err::<Seq<PartitionView>, TableError>(TableError::InvalidSignature),
{
    reveal(gpt::gpt_partitions);
    let s = disk.subrange(512, 1024);
    assert forall|x: int| 0 <= x < 504 implies #[trigger] bytes::le64(s, x) == bytes::le64(
        disk,
        512 + x,
    ) && bytes::le32(s, x) == bytes::le32(disk, 512 + x) by {
        assert(s.subrange(x, x + 8) =~= disk.subrange(512 + x, 512 + x + 8));
        bytes::lemma_le_same(s, x, disk, 512 + x, 8);
    }
    let h = gpt::dec_header(s);
    assert(bytes::le64(s, 0) == bytes::le64(disk, 512));
    assert(bytes::le64(s, 72) == bytes::le64(disk, 584));
    assert(bytes::le64(s, 80) == bytes::le64(disk, 592));
    assert(bytes::le64(s, 84) == bytes::le64(disk, 596));
    if gpt::gpt_partitions(disk, device_id) is Ok {
        let z = gpt_size(disk);
        let per = 512int / z;
        assert(per >= 1) by (nonlinear_arith)
            requires
                per == 512int / z,
                0 < z <= 512,
        ;
        let c = gpt_count(disk);
        assert((c + per - 1) / per >= 0) by (nonlinear_arith)
            requires
                c >= 0,
                per >= 1,
        ;
        assert(gpt::entry_sectors(h) == gpt_sectors(disk));
        let n = gpt_sectors(disk);
        let first = gpt_first(disk);
        let data = block_device::sectors(disk, h.partition_entry_lba as int, n)->Some_0;
        if n == 0 {
            assert(c == 0) by (nonlinear_arith)
                requires
                    (c + per - 1) / per == 0,
                    c >= 0,
                    per >= 1,
            ;
            assert(gpt::gpt_partitions(disk, device_id)->Ok_0.len() == 0);
        } else {
            assert(data.len() == 512 * n);
            assert(data == disk.subrange(first, first + data.len()));
            lemma_guid_entries(disk, device_id, data, first, z, 0, c);
        }
    }
}

/// A disk with a GUID partition table has the partitions of that table, whatever its master boot
/// record says; the master boot record counts only without one. Optical media have none.
pub proof fn guid_table_comes_first(disk: Seq<u8>, device_id: u64)
    ensures
        gpt::gpt_partitions(disk, device_id) matches Ok(v) ==> manager::scanned(
            disk,
            device_id,
            false,
        ) == v,
        gpt::gpt_partitions(disk, device_id) is Err ==> (mbr::mbr_partitions(
            disk,
            device_id,
        ) matches Ok(v) ==> manager::scanned(disk, device_id, false) == v),
        gpt::gpt_partitions(disk, device_id) is Err && mbr::mbr_partitions(disk, device_id) is Err
            ==> manager::scanned(disk, device_id, false).len() == 0,
        manager::scanned(disk, device_id, true).len() == 0,
{
}

// ---- Mounting ---------------------------------------------------------------------------

proof fn lemma_mountable_at(ps: Seq<PartitionView>, device_id: int, index: int, i: int)
    requires
        0 <= i,
    ensures
        match manager::mountable_at(ps, device_id, index, i) {
            Some(k) => i <= k < ps.len() && ps[k].device_id == device_id && ps[k].index == index
                && ps[k].filesystem is Some,
            None => forall|k: int|
                i <= k < ps.len() ==> !((#[trigger] ps[k]).device_id == device_id && ps[k].index
                    == index && ps[k].filesystem is Some),
        },
    decreases ps.len() - i,
{
    if i < ps.len() {
        lemma_mountable_at(ps, device_id, index, i + 1);
    }
}

proof fn lemma_point_taken(ms: Seq<MountView>, p: Seq<Seq<char>>, i: int)
    requires
        0 <= i,
    ensures
        manager::mount_at(ms, p, i) is Some <==> exists|j: int|
            i <= j < ms.len() && (#[trigger] ms[j]).mount_point == p,
    decreases ms.len() - i,
{
    if i < ms.len() {
        lemma_point_taken(ms, p, i + 1);
        if ms[i].mount_point == p {
            assert(ms[i].mount_point == p);
        }
    }
}

/// A request to mount is granted exactly if nothing is mounted at the place yet and, for a file
/// system on a device, the partition that is asked for is known with a file system; it is that
/// partition that is then opened, as what was asked for.
pub proof fn mount_opens_what_was_asked_for(
    st: ManagerState,
    device_id: usize,
    index: usize,
    p: Seq<Seq<char>>,
    t: FilesystemType,
)
    ensures
        ({
            let free = forall|j: int|
                0 <= j < st.mounts.len() ==> (#[trigger] st.mounts[j]).mount_point != p;
            let there = exists|k: int|
                0 <= k < st.partitions.len() && (#[trigger] st.partitions[k]).device_id == device_id
                    && st.partitions[k].index == index && st.partitions[k].filesystem is Some;
            let fat = t is Fat12 || t is Fat16 || t is Fat32;
            let memory = t is Memfs || t is Devfs || t is Procfs;
            &&& manager::planned(st, device_id, index, p, t) is Ok <==> free && (memory || ((fat
                || t is Efs) && there))
            &&& manager::planned(st, device_id, index, p, t) matches Ok((source, m)) ==> {
                &&& m.mount_point == p
                &&& m.filesystem == t
                &&& match source {
                    Source::Fat(k) => fat && m.device_id == device_id && m.partition_index
                        == index,
                    Source::Efs(k) => t is Efs && m.device_id == device_id && m.partition_index
                        == index,
                    Source::Memfs => t is Memfs,
                    Source::Devfs => t is Devfs,
                    Source::Procfs => t is Procfs,
                }
            }
            &&& st.partitions.len() <= usize::MAX ==> (manager::planned(
                st,
                device_id,
                index,
                p,
                t,
            ) matches Ok((Source::Fat(k), _)) ==> k < st.partitions.len()
                && st.partitions[k as int].device_id == device_id && st.partitions[k as int].index
                == index)
            &&& st.partitions.len() <= usize::MAX ==> (manager::planned(
                st,
                device_id,
                index,
                p,
                t,
            ) matches Ok((Source::Efs(k), _)) ==> k < st.partitions.len()
                && st.partitions[k as int].device_id == device_id && st.partitions[k as int].index
                == index)
        }),
{
    lemma_mountable_at(st.partitions, device_id as int, index as int, 0);
    lemma_point_taken(st.mounts, p, 0);
}

} // verus!
