//! The FAT driver: sectors, the FAT and chains of clusters.
use vstd::prelude::*;
use crate::types;
use crate::block_device;
use crate::block_device::{BlockDevice, Site};
use crate::bytes;
use crate::error::Error;
use crate::journal::CheckpointTracker;
use crate::sorted::SortedMap;
use super::model;
use super::model::{FatInodeEntry, FatState};
use super::structures::{Fat32BootSector, FatVariant, FsInfo, FsInfoView};

verus! {

/// A mounted FAT volume.
pub struct Fatfs {
    pub boot_info: Fat32BootSector,
    pub variant: FatVariant,
    /// First sector of the volume.
    pub starting_lba: u64,
    /// Sectors of the volume.
    pub size_sectors: u64,
    pub device: BlockDevice,
    /// The FSInfo sector; FAT32 only.
    pub fs_info: Option<FsInfo>,
    /// Files in use, by the position of their directory entries; FAT32 only.
    pub inode_table: SortedMap<FatInodeEntry>,
}

/// The view of an FSInfo sector, if there is one.
pub open spec fn info_view(f: Option<FsInfo>) -> Option<FsInfoView> {
    match f {
        Some(x) => Some(x@),
        None => None,
    }
}

impl View for Fatfs {
    type V = FatState;

    open spec fn view(&self) -> FatState {
        FatState {
            disk: block_device::flat(self.device@),
            boot: self.boot_info@,
            variant: self.variant,
            start: self.starting_lba,
            size: self.size_sectors,
            info: info_view(self.fs_info),
            inodes: self.inode_table@,
        }
    }
}

/// Whether a volume is laid out as another, whatever it holds.
pub open spec fn same_layout(a: FatState, b: FatState) -> bool {
    a.boot == b.boot && a.variant == b.variant && a.start == b.start && a.size == b.size
        && a.disk.len() == b.disk.len()
}

/// Bounds that keep sector numbers far from overflow.
pub proof fn lemma_geometry(st: FatState, c: u32)
    requires
        model::valid(st),
    ensures
        0 <= st.boot.num_fats * st.boot.fat_size_16 < 0x100_0000,
        0 <= st.boot.num_fats * st.boot.fat_size_32 < 0x100_0000_0000,
        0 <= model::root_len(st) < 0x1001,
        0 <= model::data_lba(st) < 0x81_0000_0000_0000,
        0 <= model::root_lba(st) < 0x81_0000_0000_0000,
        c >= 2 ==> 0 <= (c - 2) * model::spc(st) < 0x80_0000_0000,
        0 <= model::cluster_lba(st, c) < 0x82_0000_0000_0000,
        1 <= model::spc(st) <= 128,
{
    let n = st.boot.num_fats as int;
    let a = st.boot.fat_size_16 as int;
    let b = st.boot.fat_size_32 as int;
    assert(0 <= n * a <= 255 * 0xFFFF) by (nonlinear_arith)
        requires
            0 <= n <= 255,
            0 <= a <= 0xFFFF,
    ;
    assert(0 <= n * b <= 255 * 0xFFFF_FFFF) by (nonlinear_arith)
        requires
            0 <= n <= 255,
            0 <= b <= 0xFFFF_FFFF,
    ;
    let s = model::spc(st);
    if c >= 2 {
        let k = c - 2;
        assert(0 <= k * s <= 0xFFFF_FFFF * 128) by (nonlinear_arith)
            requires
                0 <= k <= 0xFFFF_FFFF,
                1 <= s <= 128,
        ;
    }
}

impl Fatfs {
    /// The device; no block of it waits for a transaction.
    pub open spec fn site(&self) -> Site {
        Site { tracker: Map::empty(), device: self.device }
    }

    /// Whether at most reads were done since: the medium and what is dirty are the same.
    pub open spec fn untouched(&self, other: &Fatfs) -> bool {
        block_device::looked(other.site(), self.site())
    }

    /// Whether at most reads and writes through the cache were done since.
    pub open spec fn staged_since(&self, other: &Fatfs) -> bool {
        block_device::staged(other.site(), self.site(), Set::full())
    }

    /// Whether `data` was written to the sectors from `lba` on around the cache: the pages that
    /// they lie on are on the medium, and what else is there stays.
    pub open spec fn data_written(&self, other: &Fatfs, lba: int, data: Seq<u8>) -> bool {
        &&& (self@, Ok::<(), Error>(())) == model::write(other@, lba, data)
        &&& self.device.persisted().len() == other.device.persisted().len()
        &&& forall|i: int|
            0 <= i < self.device@.len() && block_device::touches(lba * 512, data.len() as int, i)
                ==> #[trigger] self.device.persisted()[i] == self.device@[i]
        &&& forall|i: int|
            0 <= i < self.device@.len() && !block_device::touches(
                lba * 512,
                data.len() as int,
                i,
            ) ==> #[trigger] self.device.persisted()[i] == other.device.persisted()[i]
    }

    /// What holds of every mounted volume.
    pub open spec fn wf(&self) -> bool {
        &&& self.device.wf()
        &&& model::valid(self@)
    }

    /// Sectors per FAT.
    pub fn fat_size(&self) -> (r: u64)
        ensures
            r == model::fat_size(self@),
            r <= u32::MAX,
    {
        match self.variant {
            FatVariant::Fat32 => self.boot_info.fat_size_32 as u64,
            FatVariant::Fat16 => self.boot_info.fat_size_16 as u64,
            FatVariant::Fat12 => self.boot_info.fat_size_16 as u64,
        }
    }

    /// First sector of the first FAT.
    pub fn first_fat_lba(&self) -> (r: u64)
        requires
            self.wf(),
        ensures
            r == model::fat_lba(self@),
            r < 0x80_0000_0001_0000,
    {
        self.starting_lba + self.boot_info.reserved_sector_count as u64
    }

    /// First sector of the second FAT.
    pub fn backup_fat_lba(&self) -> (r: u64)
        requires
            self.wf(),
        ensures
            r == model::backup_lba(self@),
            r < 0x80_0001_0001_0000,
    {
        self.first_fat_lba() + self.fat_size()
    }

    /// Sectors of the fixed root directory.
    pub fn root_dir_sectors(&self) -> (r: u64)
        ensures
            r == model::root_len(self@),
    {
        match self.variant {
            FatVariant::Fat32 => 0,
            FatVariant::Fat16 => (self.boot_info.root_entry_count as u64 * 32 + 511) / 512,
            FatVariant::Fat12 => (self.boot_info.root_entry_count as u64 * 32 + 511) / 512,
        }
    }

    /// First sector of the fixed root directory.
    pub fn root_dir_lba(&self) -> (r: u64)
        requires
            self.wf(),
        ensures
            r == model::root_lba(self@),
    {
        proof {
            lemma_geometry(self@, 0);
        }
        self.first_fat_lba() + self.boot_info.num_fats as u64 * self.boot_info.fat_size_16 as u64
    }

    /// First sector of the data area.
    pub fn first_data_lba(&self) -> (r: u64)
        requires
            self.wf(),
        ensures
            r == model::data_lba(self@),
    {
        proof {
            lemma_geometry(self@, 0);
        }
        let n: u64 = self.fat_size();
        self.first_fat_lba() + self.boot_info.num_fats as u64 * n + self.root_dir_sectors()
    }

    /// First sector of a cluster. A cluster that does not exist, or would lie past the
    /// end of the volume, gives the first sector of the volume.
    pub fn cluster_to_lba(&self, cluster: u32) -> (r: u64)
        requires
            self.wf(),
        ensures
            r == model::cluster_lba(self@, cluster),
            r < 0x82_0000_0000_0000,
    {
        proof {
            lemma_geometry(self@, cluster);
        }
        if cluster < 2 {
            return self.starting_lba;
        }
        let lba: u64 = self.first_data_lba() + (cluster as u64 - 2)
            * self.boot_info.sectors_per_cluster as u64;
        if lba - self.starting_lba >= self.size_sectors {
            return self.starting_lba;
        }
        lba
    }

    /// Whether `cluster` stands for the fixed root directory.
    pub fn is_fixed_root(&self, cluster: u32) -> (r: bool)
        ensures
            r == model::fixed_root(self@, cluster),
    {
        cluster == 0 && self.variant != FatVariant::Fat32
    }

    /// What stands for the root directory.
    pub fn root_dir_cluster(&self) -> (r: u32)
        ensures
            r == model::root_cluster(self@),
    {
        if self.variant == FatVariant::Fat32 {
            self.boot_info.root_cluster
        } else {
            0
        }
    }

    /// The sectors that hold directory cluster `cluster`: the first, and how many.
    pub fn dir_entry_region(&self, cluster: u32) -> (r: (u64, u16))
        requires
            self.wf(),
        ensures
            r.0 == model::region(self@, cluster).0,
            r.1 == model::region(self@, cluster).1,
    {
        proof {
            lemma_geometry(self@, cluster);
        }
        if self.is_fixed_root(cluster) {
            (self.root_dir_lba(), self.root_dir_sectors() as u16)
        } else {
            (self.cluster_to_lba(cluster), self.boot_info.sectors_per_cluster as u16)
        }
    }

    /// Reads `sectors` sectors from `lba` on.
    pub fn read_disk_sectors(&mut self, lba: u64, sectors: u16) -> (r: Result<Vec<u8>, Error>)
        requires
            old(self).wf(),
        ensures
            final(self).wf(),
            final(self)@ == old(self)@,
            final(self).untouched(old(self)),
            types::bytes_of(r) == model::read(old(self)@, lba as int, sectors as int),
            r matches Ok(d) ==> d@.len() == sectors * 512,
    {
        let n: u64 = self.device.page_count();
        proof {
            self.device.lemma_wf();
        }
        if sectors == 0 {
            let none: Vec<u8> = Vec::new();
            assert(none@ =~= Seq::<u8>::empty());
            return Ok(none);
        }
        if lba / 8 >= n {
            return Err(Error::IoError);
        }
        self.device.read_bytes(lba * 512, sectors as usize * 512)
    }

    /// Writes whole sectors from `lba` on.
    pub fn write_disk_sectors(&mut self, lba: u64, data: &[u8]) -> (r: Result<(), Error>)
        requires
            old(self).wf(),
            data.len() < 0x1_0000_0000,
        ensures
            final(self).wf(),
            (final(self)@, r) == model::write(old(self)@, lba as int, data@),
            same_layout(final(self)@, old(self)@),
            final(self)@.info == old(self)@.info,
            final(self)@.inodes == old(self)@.inodes,
            final(self).staged_since(old(self)),
    {
        broadcast use crate::block_device::staging;

        let n: u64 = self.device.page_count();
        proof {
            self.device.lemma_wf();
            let st = self@;
            let keep = block_device::within(st.disk.len() as int, lba * 512, data@.len() as int);
            if lba / 8 >= n {
                assert(keep == 0);
                assert(bytes::splice(st.disk, lba * 512, data@.take(0)) =~= st.disk);
            }
        }
        if data.len() == 0 {
            assert(model::write(self@, lba as int, data@).0 =~= self@);
            return Ok(());
        }
        if lba / 8 >= n {
            assert(model::write(self@, lba as int, data@).0 =~= self@);
            return Err(Error::IoError);
        }
        let mut none = CheckpointTracker::new(0);
        let ghost a = block_device::site(self.device, none);
        let r = self.device.write_bytes(&mut none, lba * 512, data);
        proof {
            let b = block_device::site(self.device, none);
            old(self).device.lemma_wf();
            self.device.lemma_wf();
            block_device::waiting_shrinks(a, b, Set::full());
            assert forall|k: u64| !b.tracker.contains_key(k) by {
                if b.tracker.dom().contains(k) {
                    assert(a.tracker.dom().contains(k));
                }
            }
            assert(b.tracker =~= Map::<u64, u64>::empty());
            assert(a.tracker =~= Map::<u64, u64>::empty());
            assert(a == old(self).site());
            assert(b == self.site());
            assert(self@ =~= model::write(old(self)@, lba as int, data@).0);
        }
        match r {
            Ok(_) => Ok(()),
            Err(_) => Err(Error::IoError),
        }
    }

    /// Writes whole sectors of file data from `lba` on, straight to the medium: what is cached of
    /// the pages they lie on is dropped.
    pub(crate) fn write_data_sectors(&mut self, lba: u64, data: &[u8]) -> (r: Result<(), Error>)
        requires
            old(self).wf(),
            data.len() < 0x1_0000_0000,
        ensures
            final(self).wf(),
            (final(self)@, r) == model::write(old(self)@, lba as int, data@),
            same_layout(final(self)@, old(self)@),
            final(self)@.info == old(self)@.info,
            final(self)@.inodes == old(self)@.inodes,
            r is Ok ==> final(self).data_written(old(self), lba as int, data@),
    {
        let n: u64 = self.device.page_count();
        proof {
            self.device.lemma_wf();
            let st = self@;
            let keep = block_device::within(st.disk.len() as int, lba * 512, data@.len() as int);
            if lba / 8 >= n {
                assert(keep == 0);
                assert(bytes::splice(st.disk, lba * 512, data@.take(0)) =~= st.disk);
            }
        }
        if data.len() == 0 {
            assert(model::write(self@, lba as int, data@).0 =~= self@);
            return Ok(());
        }
        if lba / 8 >= n {
            assert(model::write(self@, lba as int, data@).0 =~= self@);
            return Err(Error::IoError);
        }
        let mut none = CheckpointTracker::new(0);
        let r = self.device.write_bytes_direct(&mut none, lba * 512, data);
        proof {
            self.device.lemma_wf();
            assert(self@ =~= model::write(old(self)@, lba as int, data@).0);
        }
        match r {
            Ok(_) => Ok(()),
            Err(_) => Err(Error::IoError),
        }
    }
}

} // verus!
