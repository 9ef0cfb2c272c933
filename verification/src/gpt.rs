//! GUID partition tables.
use vstd::prelude::*;
use crate::block_device;
use crate::block_device::BlockDevice;
use crate::bytes;
use crate::bytes::{get_u16, get_u32, get_u64};
use crate::fat32::structures;
use crate::fat32::structures::Fat32BootSector;
use crate::text;

verus! {

/// A globally unique identifier: its sixteen bytes as two little-endian numbers.
#[derive(Clone, Copy, PartialEq, Eq, Structural)]
pub struct Guid {
    pub low: u64,
    pub high: u64,
}

/// The identifier at `off`.
pub open spec fn dec_guid(s: Seq<u8>, off: int) -> Guid {
    Guid { low: bytes::le64(s, off), high: bytes::le64(s, off + 8) }
}

fn read_guid(s: &[u8], off: usize) -> (g: Guid)
    requires
        off + 16 <= s.len(),
    ensures
        g == dec_guid(s@, off as int),
{
    Guid { low: get_u64(s, off), high: get_u64(s, off + 8) }
}

/// What a partition is for.
#[derive(Clone, Copy, PartialEq, Eq, Structural)]
pub enum PartitionType {
    EfiSystem,
    MicrosoftBasicData,
    LinuxFilesystem,
    LinuxSwap,
    Fat12,
    Fat16Small,
    Fat16,
    Fat32,
    Ntfs,
    Extended,
    EfiSystemMbr,
    /// A type identifier that is not known.
    Unknown(Guid),
    /// A type byte that is not known.
    MbrUnknown(u8),
}

/// The file system a partition carries, or the kind of one to mount.
#[derive(Clone, Copy, PartialEq, Eq, Structural)]
pub enum FilesystemType {
    Fat12,
    Fat16,
    Fat32,
    Ntfs,
    Iso9660,
    Efs,
    Memfs,
    Devfs,
    Procfs,
    Unknown,
}

impl FilesystemType {
    /// Whether it keeps its files on a device.
    pub open spec fn on_device(self) -> bool {
        self is Fat12 || self is Fat16 || self is Fat32 || self is Ntfs || self is Iso9660
            || self is Efs
    }

    /// Whether it keeps its files on a device.
    pub fn is_device_backed(&self) -> (r: bool)
        ensures
            r == self.on_device(),
    {
        match self {
            FilesystemType::Fat12 => true,
            FilesystemType::Fat16 => true,
            FilesystemType::Fat32 => true,
            FilesystemType::Ntfs => true,
            FilesystemType::Iso9660 => true,
            FilesystemType::Efs => true,
            _ => false,
        }
    }

    /// Its name.
    pub fn name(&self) -> (r: &'static str)
        ensures
            r@ == fs_name(*self),
    {
        match self {
            FilesystemType::Fat12 => "FAT12",
            FilesystemType::Fat16 => "FAT16",
            FilesystemType::Fat32 => "FAT32",
            FilesystemType::Ntfs => "NTFS",
            FilesystemType::Iso9660 => "ISO9660",
            FilesystemType::Efs => "EFS",
            FilesystemType::Memfs => "memfs",
            FilesystemType::Devfs => "devfs",
            FilesystemType::Procfs => "procfs",
            FilesystemType::Unknown => "Unknown",
        }
    }
}

/// The name of a file system type.
pub open spec fn fs_name(t: FilesystemType) -> Seq<char> {
    match t {
        FilesystemType::Fat12 => "FAT12"@,
        FilesystemType::Fat16 => "FAT16"@,
        FilesystemType::Fat32 => "FAT32"@,
        FilesystemType::Ntfs => "NTFS"@,
        FilesystemType::Iso9660 => "ISO9660"@,
        FilesystemType::Efs => "EFS"@,
        FilesystemType::Memfs => "memfs"@,
        FilesystemType::Devfs => "devfs"@,
        FilesystemType::Procfs => "procfs"@,
        FilesystemType::Unknown => "Unknown"@,
    }
}

/// A partition of a device.
pub struct Partition {
    pub index: usize,
    pub starting_lba: u64,
    pub ending_lba: u64,
    pub size_sectors: u64,
    pub partition_type: PartitionType,
    pub name: String,
    pub filesystem: Option<FilesystemType>,
    pub device_id: u64,
    pub unique_partition_guid: Guid,
}

/// What is known of a partition.
#[verifier::ext_equal]
pub struct PartitionView {
    pub index: int,
    pub starting_lba: u64,
    pub ending_lba: u64,
    pub size_sectors: u64,
    pub partition_type: PartitionType,
    pub name: Seq<char>,
    pub filesystem: Option<FilesystemType>,
    pub device_id: u64,
    pub unique_partition_guid: Guid,
}

impl View for Partition {
    type V = PartitionView;

    open spec fn view(&self) -> PartitionView {
        PartitionView {
            index: self.index as int,
            starting_lba: self.starting_lba,
            ending_lba: self.ending_lba,
            size_sectors: self.size_sectors,
            partition_type: self.partition_type,
            name: self.name@,
            filesystem: self.filesystem,
            device_id: self.device_id,
            unique_partition_guid: self.unique_partition_guid,
        }
    }
}

impl Partition {
    /// A copy.
    pub fn duplicate(&self) -> (r: Partition)
        ensures
            r@ == self@,
    {
        Partition {
            index: self.index,
            starting_lba: self.starting_lba,
            ending_lba: self.ending_lba,
            size_sectors: self.size_sectors,
            partition_type: self.partition_type,
            name: self.name.clone(),
            filesystem: self.filesystem,
            device_id: self.device_id,
            unique_partition_guid: self.unique_partition_guid,
        }
    }
}

/// The views of several partitions.
pub open spec fn partition_views(ps: Seq<Partition>) -> Seq<PartitionView> {
    ps.map_values(|p: Partition| p@)
}

/// Why a partition table could not be read.
#[derive(Clone, Copy, PartialEq, Eq, Structural)]
pub enum TableError {
    /// The table's own sector could not be read.
    ReadHeader,
    /// The sector carries no table.
    InvalidSignature,
    /// The table says that its entries have a size that is none.
    InvalidEntrySize,
    /// The entries could not be read.
    ReadEntries,
    /// The first sector of a partition could not be read.
    ReadBootSector,
}

/// The header of a GUID partition table.
#[derive(Clone, Copy, PartialEq, Eq, Structural)]
pub struct GptHeader {
    /// "EFI PART".
    pub signature: u64,
    pub revision: u32,
    pub header_size: u32,
    pub header_crc32: u32,
    pub my_lba: u64,
    pub alternate_lba: u64,
    pub first_usable_lba: u64,
    pub last_usable_lba: u64,
    pub disk_guid: Guid,
    pub partition_entry_lba: u64,
    pub num_partition_entries: u32,
    pub partition_entry_size: u32,
    pub partition_array_crc32: u32,
}

/// "EFI PART".
pub const GPT_SIGNATURE: u64 = 0x5452_4150_2049_4645;

/// The header in `s`.
pub open spec fn dec_header(s: Seq<u8>) -> GptHeader {
    GptHeader {
        signature: bytes::le64(s, 0),
        revision: bytes::le32(s, 8),
        header_size: bytes::le32(s, 12),
        header_crc32: bytes::le32(s, 16),
        my_lba: bytes::le64(s, 24),
        alternate_lba: bytes::le64(s, 32),
        first_usable_lba: bytes::le64(s, 40),
        last_usable_lba: bytes::le64(s, 48),
        disk_guid: dec_guid(s, 56),
        partition_entry_lba: bytes::le64(s, 72),
        num_partition_entries: bytes::le32(s, 80),
        partition_entry_size: bytes::le32(s, 84),
        partition_array_crc32: bytes::le32(s, 88),
    }
}

impl GptHeader {
    /// Decodes a header.
    pub fn decode(s: &[u8]) -> (h: GptHeader)
        requires
            s.len() >= 92,
        ensures
            h == dec_header(s@),
    {
        GptHeader {
            signature: get_u64(s, 0),
            revision: get_u32(s, 8),
            header_size: get_u32(s, 12),
            header_crc32: get_u32(s, 16),
            my_lba: get_u64(s, 24),
            alternate_lba: get_u64(s, 32),
            first_usable_lba: get_u64(s, 40),
            last_usable_lba: get_u64(s, 48),
            disk_guid: read_guid(s, 56),
            partition_entry_lba: get_u64(s, 72),
            num_partition_entries: get_u32(s, 80),
            partition_entry_size: get_u32(s, 84),
            partition_array_crc32: get_u32(s, 88),
        }
    }

    /// Whether the signature is right.
    pub fn is_valid(&self) -> (r: bool)
        ensures
            r == (self.signature == GPT_SIGNATURE),
    {
        self.signature == GPT_SIGNATURE
    }
}

/// An entry of a GUID partition table.
pub struct GptPartitionEntry {
    pub partition_type_guid: Guid,
    pub unique_partition_guid: Guid,
    pub starting_lba: u64,
    pub ending_lba: u64,
    pub attributes: u64,
    /// 36 UTF-16 units.
    pub partition_name: Vec<u16>,
}

/// What an entry says.
#[verifier::ext_equal]
pub struct GptEntryView {
    pub partition_type_guid: Guid,
    pub unique_partition_guid: Guid,
    pub starting_lba: u64,
    pub ending_lba: u64,
    pub attributes: u64,
    pub partition_name: Seq<u16>,
}

impl View for GptPartitionEntry {
    type V = GptEntryView;

    open spec fn view(&self) -> GptEntryView {
        GptEntryView {
            partition_type_guid: self.partition_type_guid,
            unique_partition_guid: self.unique_partition_guid,
            starting_lba: self.starting_lba,
            ending_lba: self.ending_lba,
            attributes: self.attributes,
            partition_name: self.partition_name@,
        }
    }
}

/// The entry at `off`.
pub open spec fn dec_gpt_entry(s: Seq<u8>, off: int) -> GptEntryView {
    GptEntryView {
        partition_type_guid: dec_guid(s, off),
        unique_partition_guid: dec_guid(s, off + 16),
        starting_lba: bytes::le64(s, off + 32),
        ending_lba: bytes::le64(s, off + 40),
        attributes: bytes::le64(s, off + 48),
        partition_name: Seq::new(36, |i: int| bytes::le16(s, off + 56 + 2 * i)),
    }
}

/// Whether the units at `i` and `i + 1` are the two halves of one character.
pub open spec fn pair_at(u: Seq<u16>, i: int) -> bool {
    0 <= i && i + 1 < u.len() && 0xD800 <= u[i] < 0xDC00 && 0xDC00 <= u[i + 1] < 0xE000
}

/// The number of the character that two halves stand for.
pub open spec fn pair_number(high: u16, low: u16) -> u32 {
    (0x1_0000 + (high - 0xD800) * 0x400 + (low - 0xDC00)) as u32
}

/// The text of UTF-16 units from `i` on, up to the first zero. Half of a pair without the
/// other half is left out.
pub open spec fn units_text(u: Seq<u16>, i: int) -> Seq<char>
    decreases u.len() - i,
{
    if i < 0 || i >= u.len() || u[i] == 0 {
        Seq::empty()
    } else if pair_at(u, i) {
        seq![text::char_of(pair_number(u[i], u[i + 1]))] + units_text(u, i + 2)
    } else if text::scalar(u[i] as u32) {
        seq![text::char_of(u[i] as u32)] + units_text(u, i + 1)
    } else {
        units_text(u, i + 1)
    }
}

/// The units of text are those of its first character and those of the rest.
proof fn lemma_utf16_front(s: Seq<char>)
    requires
        s.len() > 0,
    ensures
        text::utf16(s) == text::utf16_units(s[0]) + text::utf16(s.skip(1)),
    decreases s.len(),
{
    if s.len() == 1 {
        assert(s.drop_last() =~= Seq::<char>::empty());
        assert(s.skip(1) =~= Seq::<char>::empty());
        assert(text::utf16(s) =~= text::utf16_units(s[0]) + text::utf16(s.skip(1)));
    } else {
        lemma_utf16_front(s.drop_last());
        assert(s.drop_last().skip(1) =~= s.skip(1).drop_last());
        assert(text::utf16(s) =~= text::utf16_units(s[0]) + text::utf16(s.skip(1)));
    }
}

/// Text behind other units is read back.
#[verifier::spinoff_prover]
#[verifier::rlimit(40)]
proof fn lemma_units_behind(front: Seq<u16>, s: Seq<char>)
    requires
        forall|i: int| 0 <= i < s.len() ==> text::number(#[trigger] s[i]) != 0,
    ensures
        units_text(front + text::utf16(s), front.len() as int) == s,
    decreases s.len(),
{
    let u = front + text::utf16(s);
    let i = front.len() as int;
    if s.len() == 0 {
        assert(units_text(u, i) =~= s);
    } else {
        lemma_utf16_front(s);
        let c = s[0];
        let n = text::number(c);
        let w = text::utf16_units(c);
        let t = s.skip(1);
        assert(u =~= (front + w) + text::utf16(t));
        lemma_units_behind(front + w, t);
        text::char_has_one_number(c);
        vstd::utf8::char_is_scalar(c);
        assert(u[i] == w[0]);
        if n < 0x1_0000 {
            assert(w.len() == 1);
            assert(!pair_at(u, i));
        } else {
            assert(u[i + 1] == w[1]);
            assert(pair_at(u, i));
            assert(pair_number(w[0], w[1]) == n);
        }
        assert(units_text(u, i) == seq![c] + t);
        assert(seq![c] + t =~= s);
    }
}

/// Text that was written down as UTF-16 is read back.
pub proof fn name_is_read_back(s: Seq<char>)
    requires
        forall|i: int| 0 <= i < s.len() ==> text::number(#[trigger] s[i]) != 0,
    ensures
        units_text(text::utf16(s), 0) == s,
{
    let none = Seq::<u16>::empty();
    assert(none + text::utf16(s) =~= text::utf16(s));
    lemma_units_behind(none, s);
}

/// Sectors from one to another.
pub open spec fn span_sectors(first: u64, last: u64) -> u64 {
    if last < first {
        0
    } else if last - first == u64::MAX {
        u64::MAX
    } else {
        (last - first + 1) as u64
    }
}

/// What a partition with this type identifier is for.
pub open spec fn type_of_guid(g: Guid) -> PartitionType {
    if g == (Guid { low: 0x11D2_F81F_C12A_7328, high: 0x3BC9_3EC9_A000_4BBA }) {
        PartitionType::EfiSystem
    } else if g == (Guid { low: 0x4433_B9E5_EBD0_A0A2, high: 0xC799_26B7_B668_C087 }) {
        PartitionType::MicrosoftBasicData
    } else if g == (Guid { low: 0x4772_8483_0FC6_3DAF, high: 0xE47D_47D8_693D_798E }) {
        PartitionType::LinuxFilesystem
    } else if g == (Guid { low: 0x44C4_A4AB_0657_FD6D, high: 0x4F4F_4BC8_3309_E584 }) {
        PartitionType::LinuxSwap
    } else {
        PartitionType::Unknown(g)
    }
}

impl GptPartitionEntry {
    /// Decodes the entry at `off`.
    pub fn decode(s: &[u8], off: usize) -> (e: GptPartitionEntry)
        requires
            off + 128 <= s.len(),
        ensures
            e@ == dec_gpt_entry(s@, off as int),
    {
        let mut name: Vec<u16> = Vec::new();
        let mut i: usize = 0;
        while i < 36
            invariant
                i <= 36,
                off + 128 <= s.len(),
                name@ == Seq::new(i as nat, |k: int| bytes::le16(s@, off + 56 + 2 * k)),
            decreases 36 - i,
        {
            name.push(get_u16(s, off + 56 + 2 * i));
            assert(name@ =~= Seq::new(
                (i + 1) as nat,
                |k: int| bytes::le16(s@, off + 56 + 2 * k),
            ));
            i = i + 1;
        }
        GptPartitionEntry {
            partition_type_guid: read_guid(s, off),
            unique_partition_guid: read_guid(s, off + 16),
            starting_lba: get_u64(s, off + 32),
            ending_lba: get_u64(s, off + 40),
            attributes: get_u64(s, off + 48),
            partition_name: name,
        }
    }

    /// Whether the entry stands for a partition.
    pub fn is_used(&self) -> (r: bool)
        ensures
            r == (self@.partition_type_guid != (Guid { low: 0, high: 0 })),
    {
        self.partition_type_guid.low != 0 || self.partition_type_guid.high != 0
    }

    /// Sectors of the partition.
    pub fn size_sectors(&self) -> (r: u64)
        ensures
            r == span_sectors(self@.starting_lba, self@.ending_lba),
    {
        if self.ending_lba >= self.starting_lba {
            (self.ending_lba - self.starting_lba).saturating_add(1)
        } else {
            0
        }
    }

    /// The name of the partition, which is stored as UTF-16.
    pub fn name(&self) -> (r: String)
        ensures
            r@ == units_text(self@.partition_name, 0),
    {
        let mut s = String::new();
        let mut i: usize = 0;
        let ghost u = self.partition_name@;
        assert(s@ + units_text(u, 0) =~= units_text(u, 0));
        while i < self.partition_name.len() && self.partition_name[i] != 0
            invariant
                i <= self.partition_name.len(),
                u == self.partition_name@,
                s@ + units_text(u, i as int) == units_text(u, 0),
            decreases self.partition_name.len() - i,
        {
            let n: u16 = self.partition_name[i];
            let next: u16 = if i + 1 < self.partition_name.len() {
                self.partition_name[i + 1]
            } else {
                0
            };
            let pair: bool = 0xD800 <= n && n < 0xDC00 && 0xDC00 <= next && next < 0xE000;
            assert(pair == pair_at(u, i as int));
            let number: u32 = if pair {
                0x1_0000 + (n as u32 - 0xD800) * 0x400 + (next as u32 - 0xDC00)
            } else {
                n as u32
            };
            let step: usize = if pair {
                2
            } else {
                1
            };
            let ghost before = s@;
            match char::from_u32(number) {
                Some(c) => {
                    s.push(c);
                    proof {
                        text::char_has_one_number(c);
                    }
                    assert(before.push(c) + units_text(u, i + step) =~= before + (seq![c]
                        + units_text(u, i + step)));
                },
                None => {},
            }
            i = i + step;
        }
        assert(s@ + Seq::<char>::empty() =~= s@);
        s
    }

    /// What the partition is for.
    pub fn partition_type(&self) -> (r: PartitionType)
        ensures
            r == type_of_guid(self@.partition_type_guid),
    {
        let g = self.partition_type_guid;
        if g.low == 0x11D2_F81F_C12A_7328 && g.high == 0x3BC9_3EC9_A000_4BBA {
            PartitionType::EfiSystem
        } else if g.low == 0x4433_B9E5_EBD0_A0A2 && g.high == 0xC799_26B7_B668_C087 {
            PartitionType::MicrosoftBasicData
        } else if g.low == 0x4772_8483_0FC6_3DAF && g.high == 0xE47D_47D8_693D_798E {
            PartitionType::LinuxFilesystem
        } else if g.low == 0x44C4_A4AB_0657_FD6D && g.high == 0x4F4F_4BC8_3309_E584 {
            PartitionType::LinuxSwap
        } else {
            PartitionType::Unknown(g)
        }
    }
}

/// The file system that the boot sector of a partition shows: FAT32, or none that is
/// known.
pub open spec fn boot_filesystem(sector: Seq<u8>) -> FilesystemType {
    if structures::strictly_fat32(structures::dec_boot(sector)) {
        FilesystemType::Fat32
    } else {
        FilesystemType::Unknown
    }
}

/// The partition that an entry describes.
pub open spec fn described(e: GptEntryView, index: int, device_id: u64, boot: Seq<u8>) -> PartitionView {
    PartitionView {
        index,
        starting_lba: e.starting_lba,
        ending_lba: e.ending_lba,
        size_sectors: span_sectors(e.starting_lba, e.ending_lba),
        partition_type: type_of_guid(e.partition_type_guid),
        name: units_text(e.partition_name, 0),
        filesystem: Some(boot_filesystem(boot)),
        device_id,
        unique_partition_guid: e.unique_partition_guid,
    }
}

/// The partitions that the entries from `i` on describe; the table ends early where
/// its data does.
pub open spec fn entries_from(
    disk: Seq<u8>,
    device_id: u64,
    data: Seq<u8>,
    size: int,
    i: int,
    n: int,
) -> Result<Seq<PartitionView>, TableError>
    decreases n - i,
{
    if i >= n || i * size + 128 > data.len() {
        Ok::<Seq<PartitionView>, TableError>(Seq::empty())
    } else {
        let e = dec_gpt_entry(data, i * size);
        if e.partition_type_guid == (Guid { low: 0, high: 0 }) {
            entries_from(disk, device_id, data, size, i + 1, n)
        } else {
            match block_device::sectors(disk, e.starting_lba as int, 1) {
                None => Err::<Seq<PartitionView>, TableError>(TableError::ReadBootSector),
                Some(boot) => match entries_from(disk, device_id, data, size, i + 1, n) {
                    Err(x) => Err::<Seq<PartitionView>, TableError>(x),
                    Ok(rest) => Ok::<Seq<PartitionView>, TableError>(
                        seq![described(e, i, device_id, boot)] + rest,
                    ),
                },
            }
        }
    }
}

/// How many sectors of entries are read.
pub open spec fn entry_sectors(h: GptHeader) -> int {
    let per = 512int / h.partition_entry_size as int;
    (h.num_partition_entries + per - 1) / per % 65536
}

/// The partitions of a device that holds `disk`.
#[verifier::opaque]
pub open spec fn gpt_partitions(disk: Seq<u8>, device_id: u64) -> Result<
    Seq<PartitionView>,
    TableError,
> {
    match block_device::sectors(disk, 1, 1) {
        None => Err::<Seq<PartitionView>, TableError>(TableError::ReadHeader),
        Some(s) => {
            let h = dec_header(s);
            if h.signature != GPT_SIGNATURE {
                Err::<Seq<PartitionView>, TableError>(TableError::InvalidSignature)
            } else if h.partition_entry_size == 0 || h.partition_entry_size > 512 {
                Err::<Seq<PartitionView>, TableError>(TableError::InvalidEntrySize)
            } else {
                match block_device::sectors(disk, h.partition_entry_lba as int, entry_sectors(h)) {
                    None => Err::<Seq<PartitionView>, TableError>(TableError::ReadEntries),
                    Some(data) => entries_from(
                        disk,
                        device_id,
                        data,
                        h.partition_entry_size as int,
                        0,
                        h.num_partition_entries as int,
                    ),
                }
            }
        },
    }
}

/// A result whose partitions are seen through their views.
pub open spec fn table_of(r: Result<Vec<Partition>, TableError>) -> Result<
    Seq<PartitionView>,
    TableError,
> {
    match r {
        Ok(v) => Ok(partition_views(v@)),
        Err(e) => Err(e),
    }
}

/// A result with partitions put in front of it.
pub open spec fn put_before(done: Seq<PartitionView>, r: Result<Seq<PartitionView>, TableError>) -> Result<
    Seq<PartitionView>,
    TableError,
> {
    match r {
        Ok(rest) => Ok::<Seq<PartitionView>, TableError>(done + rest),
        Err(e) => Err::<Seq<PartitionView>, TableError>(e),
    }
}

/// The file system that a partition carries, by its first sector.
pub fn detect_filesystem(device: &mut BlockDevice, lba: u64) -> (r: Result<
    FilesystemType,
    TableError,
>)
    requires
        old(device).wf(),
    ensures
        final(device).wf(),
        final(device)@ == old(device)@,
        final(device).persisted() == old(device).persisted(),
        final(device).dirty() == old(device).dirty(),
        final(device).device_id == old(device).device_id,
        r == (match block_device::sectors(block_device::flat(old(device)@), lba as int, 1) {
            None => Err::<FilesystemType, TableError>(TableError::ReadBootSector),
            Some(s) => Ok::<FilesystemType, TableError>(boot_filesystem(s)),
        }),
{
    match device.read_sectors(lba, 1) {
        Ok(s) => if Fat32BootSector::decode(s.as_slice()).is_fat32() {
            Ok(FilesystemType::Fat32)
        } else {
            Ok(FilesystemType::Unknown)
        },
        Err(_) => Err(TableError::ReadBootSector),
    }
}

/// Reads the GUID partition table of a device.
pub fn parse_gpt(device: &mut BlockDevice) -> (r: Result<Vec<Partition>, TableError>)
    requires
        old(device).wf(),
    ensures
        final(device).wf(),
        final(device)@ == old(device)@,
        final(device).persisted() == old(device).persisted(),
        final(device).dirty() == old(device).dirty(),
        final(device).device_id == old(device).device_id,
        table_of(r) == gpt_partitions(block_device::flat(old(device)@), old(device).device_id),
{
    reveal(gpt_partitions);
    let ghost disk = block_device::flat(device@);
    let id: u64 = device.device_id;
    let s = match device.read_sectors(1, 1) {
        Ok(s) => s,
        Err(_) => {
            return Err(TableError::ReadHeader);
        },
    };
    let h = GptHeader::decode(s.as_slice());
    if !h.is_valid() {
        return Err(TableError::InvalidSignature);
    }
    if h.partition_entry_size == 0 || h.partition_entry_size > 512 {
        return Err(TableError::InvalidEntrySize);
    }
    let size: usize = h.partition_entry_size as usize;
    let per: u64 = 512 / h.partition_entry_size as u64;
    proof {
        let z = h.partition_entry_size as int;
        assert(1 <= 512int / z <= 512) by (nonlinear_arith)
            requires
                1 <= z <= 512,
        ;
    }
    let want: u64 = (h.num_partition_entries as u64 + per - 1) / per % 65536;
    let data = match device.read_sectors(h.partition_entry_lba, want as u16) {
        Ok(d) => d,
        Err(_) => {
            return Err(TableError::ReadEntries);
        },
    };
    let n: u32 = h.num_partition_entries;
    let mut out: Vec<Partition> = Vec::new();
    let mut i: u32 = 0;
    let mut off: usize = 0;
    let ghost whole = entries_from(disk, id, data@, size as int, 0, n as int);
    assert(put_before(partition_views(out@), whole) == whole) by {
        if whole is Ok {
            assert(partition_views(out@) + whole->Ok_0 =~= whole->Ok_0);
        }
    }
    while i < n && off + 128 <= data.len()
        invariant
            i <= n,
            1 <= size <= 512,
            off == i * size,
            off <= data.len() + 512,
            data.len() <= 65535 * 512,
            device.wf(),
            block_device::flat(device@) == disk,
            device@ == old(device)@,
            device.persisted() == old(device).persisted(),
            device.dirty() == old(device).dirty(),
            device.device_id == id,
            id == old(device).device_id,
            disk == block_device::flat(old(device)@),
            gpt_partitions(disk, id) == whole,
            whole == put_before(
                partition_views(out@),
                entries_from(disk, id, data@, size as int, i as int, n as int),
            ),
        decreases n - i,
    {
        let e = GptPartitionEntry::decode(data.as_slice(), off);
        if e.is_used() {
            let fs = match detect_filesystem(device, e.starting_lba) {
                Ok(t) => t,
                Err(x) => {
                    return Err(x);
                },
            };
            let p = Partition {
                index: i as usize,
                starting_lba: e.starting_lba,
                ending_lba: e.ending_lba,
                size_sectors: e.size_sectors(),
                partition_type: e.partition_type(),
                name: e.name(),
                filesystem: Some(fs),
                device_id: id,
                unique_partition_guid: e.unique_partition_guid,
            };
            let ghost before = partition_views(out@);
            let ghost pv = p@;
            out.push(p);
            proof {
                assert(partition_views(out@) =~= before.push(pv));
                let rest = entries_from(disk, id, data@, size as int, i + 1, n as int);
                if rest is Ok {
                    assert(before + (seq![pv] + rest->Ok_0) =~= before.push(pv) + rest->Ok_0);
                }
            }
        }
        assert((i + 1) * size == i * size + size) by (nonlinear_arith);
        i = i + 1;
        off = off + size;
    }
    assert(partition_views(out@) + Seq::<PartitionView>::empty() =~= partition_views(out@));
    Ok(out)
}

} // verus!
