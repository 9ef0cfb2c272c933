//! The file allocation table.
use vstd::prelude::*;
use crate::bytes::{get_u16, get_u32, put_u16, put_u32};
use crate::error::Error;
use super::driver;
use super::driver::Fatfs;
use super::model;
use super::model::FatState;
use super::structures;
use super::structures::{FatVariant, FsInfo, CLUSTER_EOF, FSINFO_UNKNOWN};

verus! {

broadcast use crate::block_device::staging;

/// Sectors that a field of `len` bytes touches that starts `within` bytes into a
/// sector.
pub fn sector_span(within: usize, len: usize) -> (r: u16)
    requires
        within < 512,
        len <= 512,
    ensures
        r == (if within + len > 512 {
            2u16
        } else {
            1u16
        }),
{
    if within + len > 512 {
        2
    } else {
        1
    }
}

proof fn lemma_span(v: FatVariant, c: u32)
    ensures
        0 <= model::fat_offset(v, c) < 0x4_0000_0000,
        0 <= model::fat_offset(v, c) % 512 < 512,
        model::fat_offset(v, c) % 512 + model::fat_width(v) <= model::fat_span(v, c) * 512,
        1 <= model::fat_span(v, c) <= 2,
{
}

impl Fatfs {
    /// Where the FAT entry of a cluster lies: sector of the FAT, offset in the sector,
    /// sectors touched.
    fn fat_position(&self, cluster: u32) -> (r: (u64, usize, u16))
        ensures
            r.0 == model::fat_offset(self@.variant, cluster) / 512,
            r.1 == model::fat_offset(self@.variant, cluster) % 512,
            r.2 == model::fat_span(self@.variant, cluster),
            r.0 < 0x200_0000,
            r.1 + model::fat_width(self@.variant) <= r.2 * 512,
    {
        proof {
            lemma_span(self@.variant, cluster);
        }
        let (off, width): (u64, usize) = match self.variant {
            FatVariant::Fat32 => (cluster as u64 * 4, 4),
            FatVariant::Fat16 => (cluster as u64 * 2, 2),
            FatVariant::Fat12 => (cluster as u64 * 3 / 2, 2),
        };
        let within: usize = (off % 512) as usize;
        (off / 512, within, sector_span(within, width))
    }

    /// The FAT entry of a cluster as it stands.
    fn get_fat_value(&mut self, cluster: u32) -> (r: Result<u32, Error>)
        requires
            old(self).wf(),
        ensures
            final(self).wf(),
            final(self)@ == old(self)@,
            final(self).untouched(old(self)),
            r == model::fat_value(old(self)@, cluster),
    {
        let (idx, w, span) = self.fat_position(cluster);
        let lba: u64 = self.first_fat_lba() + idx;
        let sec = match self.read_disk_sectors(lba, span) {
            Ok(s) => s,
            Err(e) => {
                return Err(e);
            },
        };
        Ok(
            match self.variant {
                FatVariant::Fat32 => get_u32(sec.as_slice(), w),
                FatVariant::Fat16 => get_u16(sec.as_slice(), w) as u32,
                FatVariant::Fat12 => if cluster % 2 == 0 {
                    (get_u16(sec.as_slice(), w) % 4096) as u32
                } else {
                    (get_u16(sec.as_slice(), w) / 16) as u32
                },
            },
        )
    }

    fn mask(&self, x: u32) -> (r: u32)
        ensures
            r == model::masked(self@.variant, x),
    {
        if self.variant == FatVariant::Fat32 {
            x % 0x1000_0000
        } else {
            x
        }
    }

    /// The value that is written to end a chain.
    pub fn eof_value(&self) -> (r: u32)
        ensures
            r == model::eof_value(self@.variant),
    {
        match self.variant {
            FatVariant::Fat32 => CLUSTER_EOF,
            FatVariant::Fat16 => 0xFFFF,
            FatVariant::Fat12 => 0xFFF,
        }
    }

    /// The cluster that follows `cluster`, if the chain does not end there.
    pub fn get_fat_entry(&mut self, cluster: u32) -> (r: Result<Option<u32>, Error>)
        requires
            old(self).wf(),
        ensures
            final(self).wf(),
            final(self)@ == old(self)@,
            final(self).untouched(old(self)),
            r == model::fat_next(old(self)@, cluster),
    {
        reveal(model::fat_next);
        let raw: u32 = match self.get_fat_value(cluster) {
            Ok(x) => x,
            Err(e) => {
                return Err(e);
            },
        };
        let val: u32 = self.mask(raw);
        let end: u32 = match self.variant {
            FatVariant::Fat32 => CLUSTER_EOF,
            FatVariant::Fat16 => 0xFFF8,
            FatVariant::Fat12 => 0xFF8,
        };
        if val == 0 || val >= end {
            return Ok(None);
        }
        if val == end - 1 {
            return Err(Error::IoError);
        }
        Ok(Some(raw))
    }

    /// Writes sectors to every FAT, so that the copies do not diverge.
    pub fn write_fat_sectors(&mut self, sector_index: u64, buf: &[u8]) -> (r: Result<(), Error>)
        requires
            old(self).wf(),
            sector_index < 0x200_0000,
            buf.len() < 0x1_0000_0000,
        ensures
            final(self).wf(),
            final(self).staged_since(old(self)),
            (final(self)@, r) == model::write_fat(old(self)@, sector_index as int, buf@),
            driver::same_layout(final(self)@, old(self)@),
            final(self)@.info == old(self)@.info,
            final(self)@.inodes == old(self)@.inodes,
    {
        let size: u64 = self.fat_size();
        let copies: u64 = self.boot_info.num_fats as u64;
        let mut i: u64 = 0;
        while i < copies
            invariant
                i <= copies,
                copies == self@.boot.num_fats,
                size == model::fat_size(self@),
                sector_index < 0x200_0000,
                buf.len() < 0x1_0000_0000,
                self.wf(),
                self.staged_since(old(self)),
                driver::same_layout(self@, old(self)@),
                self@.info == old(self)@.info,
                self@.inodes == old(self)@.inodes,
                model::write_fat(old(self)@, sector_index as int, buf@) == model::write_copies(
                    self@,
                    sector_index as int,
                    buf@,
                    i as int,
                ),
            decreases copies - i,
        {
            let ghost st = self@;
            assert(0 <= i * size <= 255 * 0xFFFF_FFFF) by (nonlinear_arith)
                requires
                    0 <= i <= 255,
                    0 <= size <= 0xFFFF_FFFF,
            ;
            let lba: u64 = self.first_fat_lba() + i * size + sector_index;
            match self.write_disk_sectors(lba, buf) {
                Ok(_) => {},
                Err(e) => {
                    return Err(e);
                },
            }
            assert(self@ =~= (FatState { disk: self@.disk, ..st }));
            i = i + 1;
        }
        Ok(())
    }

    /// Sets the FAT entry of a cluster in every FAT.
    pub fn set_fat_value(&mut self, cluster: u32, value: u32) -> (r: Result<(), Error>)
        requires
            old(self).wf(),
        ensures
            final(self).wf(),
            final(self).staged_since(old(self)),
            (final(self)@, r) == model::set_fat(old(self)@, cluster, value),
            driver::same_layout(final(self)@, old(self)@),
            final(self)@.info == old(self)@.info,
            final(self)@.inodes == old(self)@.inodes,
    {
        reveal(model::set_fat);
        let (idx, w, span) = self.fat_position(cluster);
        let lba: u64 = self.first_fat_lba() + idx;
        let mut sec = match self.read_disk_sectors(lba, span) {
            Ok(s) => s,
            Err(e) => {
                return Err(e);
            },
        };
        match self.variant {
            FatVariant::Fat32 => {
                put_u32(&mut sec, w, value % 0x1000_0000);
            },
            FatVariant::Fat16 => {
                put_u16(&mut sec, w, (value % 0x1_0000) as u16);
            },
            FatVariant::Fat12 => {
                let cur: u32 = get_u16(sec.as_slice(), w) as u32;
                let new: u32 = if cluster % 2 == 0 {
                    cur / 4096 * 4096 + value % 4096
                } else {
                    cur % 16 + value % 4096 * 16
                };
                put_u16(&mut sec, w, new as u16);
            },
        }
        self.write_fat_sectors(idx, sec.as_slice())
    }

    fn search_limit(&self) -> (r: u64)
        ensures
            r == model::search_limit(self@),
            r <= 0xFFFF_FFFF,
    {
        let per: u64 = match self.variant {
            FatVariant::Fat32 => 128,
            FatVariant::Fat16 => 256,
            FatVariant::Fat12 => 341,
        };
        let n: u64 = self.fat_size() * per;
        if n > 0xFFFF_FFFF {
            0xFFFF_FFFF
        } else {
            n
        }
    }

    /// Takes the first free cluster from `start` on.
    fn search_free(&mut self, start: u32) -> (r: Option<u32>)
        requires
            old(self).wf(),
        ensures
            final(self).wf(),
            final(self).staged_since(old(self)),
            (final(self)@, r) == model::search(old(self)@, start),
            driver::same_layout(final(self)@, old(self)@),
            final(self)@.info == old(self)@.info,
            final(self)@.inodes == old(self)@.inodes,
    {
        let limit: u64 = self.search_limit();
        let mut c: u32 = start;
        while (c as u64) < limit
            invariant
                self.wf(),
                self@ == old(self)@,
                self.untouched(old(self)),
                limit == model::search_limit(self@),
                limit <= 0xFFFF_FFFF,
                model::search(old(self)@, start) == model::search(self@, c),
            decreases 0xFFFF_FFFF - c,
        {
            let x: u32 = match self.get_fat_value(c) {
                Ok(x) => x,
                Err(_) => {
                    return None;
                },
            };
            if self.mask(x) == 0 {
                let eof: u32 = self.eof_value();
                return match self.set_fat_value(c, eof) {
                    Ok(_) => Some(c),
                    Err(_) => None,
                };
            }
            c = c + 1;
        }
        None
    }

    /// Takes a free cluster and makes it the end of a chain.
    pub fn alloc_cluster(&mut self) -> (r: Result<u32, Error>)
        requires
            old(self).wf(),
        ensures
            final(self).wf(),
            final(self).staged_since(old(self)),
            (final(self)@, r) == model::take_cluster(old(self)@),
            driver::same_layout(final(self)@, old(self)@),
            final(self)@.inodes == old(self)@.inodes,
    {
        reveal(model::take_cluster);
        let start: u32 = if self.variant == FatVariant::Fat32 {
            match &self.fs_info {
                Some(f) => if f.next_free != FSINFO_UNKNOWN && f.next_free >= 2 {
                    f.next_free
                } else {
                    2
                },
                None => 2,
            }
        } else {
            2
        };
        let mut found: Option<u32> = self.search_free(start);
        if found.is_none() {
            found = self.search_free(2);
        }
        let c: u32 = match found {
            Some(c) => c,
            None => {
                return Err(Error::NoSpace);
            },
        };
        let ghost s2 = self@;
        let mut info: Option<FsInfo> = None;
        std::mem::swap(&mut info, &mut self.fs_info);
        match info {
            Some(f) => {
                let mut f = f;
                f.next_free = if c == u32::MAX {
                    2
                } else if c + 1 < 2 {
                    2
                } else {
                    c + 1
                };
                if f.free_count != FSINFO_UNKNOWN && f.free_count > 0 {
                    f.free_count = f.free_count - 1;
                }
                self.fs_info = Some(f);
            },
            None => {},
        }
        assert(self@ =~= (FatState { info: model::info_taken(s2.info, c), ..s2 }));
        Ok(c)
    }

    /// Makes cluster `to` follow `from` and end the chain.
    pub fn link_fat_entry(&mut self, from: u32, to: u32) -> (r: Result<(), Error>)
        requires
            old(self).wf(),
        ensures
            final(self).wf(),
            final(self).staged_since(old(self)),
            (final(self)@, r) == model::link(old(self)@, from, to),
            driver::same_layout(final(self)@, old(self)@),
            final(self)@.info == old(self)@.info,
            final(self)@.inodes == old(self)@.inodes,
    {
        reveal(model::link);
        let r = self.set_fat_value(from, to);
        if r.is_err() {
            return r;
        }
        let eof: u32 = self.eof_value();
        self.set_fat_value(to, eof)
    }

    /// Most clusters a chain that ends can have.
    pub fn chain_limit(&self) -> (r: u64)
        requires
            self.wf(),
        ensures
            r == model::chain_limit(self@),
    {
        proof {
            self.device.lemma_wf();
        }
        match self.variant {
            FatVariant::Fat32 => self.device.page_count() * 1024,
            FatVariant::Fat16 => 0x1_0001,
            FatVariant::Fat12 => 0x1001,
        }
    }

    /// Most clusters of a chain that are freed.
    pub fn free_limit(&self) -> (r: u64)
        ensures
            r == model::free_limit(self@),
            r <= 0x100_0000_0000,
    {
        let n: u64 = self.fat_size() * 512;
        if self.variant == FatVariant::Fat32 {
            n / 4
        } else {
            n / 2
        }
    }

    /// Frees the chain that starts at `start`. Returns how many clusters it had.
    pub fn free_cluster_chain(&mut self, start: u32) -> (r: Result<u64, Error>)
        requires
            old(self).wf(),
        ensures
            final(self).wf(),
            driver::same_layout(final(self)@, old(self)@),
            final(self)@.inodes == old(self)@.inodes,
            ({
                let (s, m) = model::free_chain(old(self)@, start);
                &&& final(self)@ == s
                &&& match r {
                    Ok(n) => m == Ok::<int, Error>(n as int),
                    Err(e) => m == Err::<int, Error>(e),
                }
            }),
    {
        reveal(model::free_chain);
        if start < 2 {
            return Ok(0);
        }
        let limit: u64 = self.free_limit();
        let mut c: u32 = start;
        let mut freed: u64 = 0;
        let mut more: bool = true;
        let ghost target = model::free_from(self@, start, 0);
        while more
            invariant
                self.wf(),
                driver::same_layout(self@, old(self)@),
                self@.inodes == old(self)@.inodes,
                self@.info == old(self)@.info,
                start >= 2,
                limit == model::free_limit(self@),
                limit <= 0x100_0000_0000,
                freed <= limit,
                target == model::free_from(old(self)@, start, 0),
                model::free_chain(old(self)@, start) == (match target.1 {
                    Err(e) => (target.0, Err::<int, Error>(e)),
                    Ok(n) => (
                        FatState {
                            info: model::info_freed(target.0.info, start, n),
                            ..target.0
                        },
                        Ok::<int, Error>(n),
                    ),
                }),
                more ==> target == model::free_from(self@, c, freed as int),
                !more ==> target == (self@, Ok::<int, Error>(freed as int)),
            decreases limit - freed + (if more {
                1int
            } else {
                0
            }),
        {
            if freed >= limit {
                return Err(Error::Corrupted);
            }
            let next: Option<u32> = match self.get_fat_entry(c) {
                Ok(n) => n,
                Err(e) => {
                    return Err(e);
                },
            };
            match self.set_fat_value(c, 0) {
                Ok(_) => {},
                Err(e) => {
                    return Err(e);
                },
            }
            freed = freed + 1;
            match next {
                Some(n) => {
                    c = n;
                },
                None => {
                    more = false;
                },
            }
        }
        let ghost s2 = self@;
        let mut info: Option<FsInfo> = None;
        std::mem::swap(&mut info, &mut self.fs_info);
        match info {
            Some(f) => {
                let mut f = f;
                if f.free_count != FSINFO_UNKNOWN {
                    f.free_count = if f.free_count as u64 + freed > u32::MAX as u64 {
                        u32::MAX
                    } else {
                        (f.free_count as u64 + freed) as u32
                    };
                }
                if f.next_free == FSINFO_UNKNOWN || start < f.next_free {
                    f.next_free = start;
                }
                self.fs_info = Some(f);
            },
            None => {},
        }
        assert(self@ =~= (FatState {
            info: model::info_freed(s2.info, start, freed as int),
            ..s2
        }));
        Ok(freed)
    }

    /// Writes the FSInfo sector, if there is one.
    pub fn save_fs_info(&mut self) -> (r: Result<(), Error>)
        requires
            old(self).wf(),
        ensures
            final(self).wf(),
            driver::same_layout(final(self)@, old(self)@),
            (final(self)@, r) == save_info(old(self)@),
    {
        let data: Option<Vec<u8>> = match &self.fs_info {
            Some(f) => Some(f.encode()),
            None => None,
        };
        match data {
            Some(d) => {
                proof {
                    structures::fsinfo_round_trip(self@.info->Some_0);
                }
                let lba: u64 = self.starting_lba + self.boot_info.fs_info as u64;
                self.write_disk_sectors(lba, d.as_slice())
            },
            None => Ok(()),
        }
    }
}

/// The FSInfo sector written, if there is one.
pub open spec fn save_info(st: FatState) -> (FatState, Result<(), Error>) {
    match st.info {
        None => (st, Ok::<(), Error>(())),
        Some(f) => model::write(st, st.start + st.boot.fs_info, structures::enc_fsinfo(f)),
    }
}

} // verus!
