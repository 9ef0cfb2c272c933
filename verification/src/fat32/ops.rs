//! FAT as a file system.
use vstd::prelude::*;
use crate::block_device;
use crate::block_device::BlockDevice;
use crate::bytes;
use crate::bytes::{push_slice, sub_vec, write_at, zero_vec};
use crate::error::Error;
use crate::filesystem::FileSystem;
use crate::journal::CheckpointTracker;
use crate::path;
use crate::path::Path;
use crate::sorted::SortedMap;
use crate::text;
use crate::types;
use crate::types::{File, FileTime, FileView, StatFs};
use super::driver;
use super::driver::Fatfs;
use super::entry;
use super::entry::{DirectoryEntry, EntryView};
use super::model;
use super::model::{Change, FatInodeEntry, FatState};
use super::names;
use super::page_cache;
use super::read;
use super::structures;
use super::structures::{
    Fat32BootSector, FatVariant, FsInfo, ATTR_DIRECTORY, ATTR_LONG_NAME, FSINFO_UNKNOWN,
};
use super::table;
use super::traverse;
use super::traverse::{EntryChange, Found};

verus! {

/// Names longer than this have no place in any directory.
pub const MAX_NAME_CHARS: usize = 400_000;

// ---- File numbers ---------------------------------------------------------------------

/// The number of the file whose directory entry lies at this position.
pub open spec fn ino_at(dir_cluster: u32, offset: int) -> u64 {
    (dir_cluster * 0x1_0000_0000 + offset) as u64
}

/// The number of the file whose directory entry lies at this position.
pub fn fat_ino_from_pos(dir_cluster: u32, entry_offset: usize) -> (r: u64)
    requires
        entry_offset <= u32::MAX,
    ensures
        r == ino_at(dir_cluster, entry_offset as int),
{
    dir_cluster as u64 * 0x1_0000_0000 + entry_offset as u64
}

/// The position of the directory entry of the file with this number.
pub fn split_fat_ino(ino: u64) -> (r: (u32, u32))
    ensures
        r.0 == ino / 0x1_0000_0000,
        r.1 == ino % 0x1_0000_0000,
{
    ((ino / 0x1_0000_0000) as u32, (ino % 0x1_0000_0000) as u32)
}

/// A file number says where the directory entry lies.
pub proof fn ino_round_trip(dir_cluster: u32, offset: u32)
    ensures
        ino_at(dir_cluster, offset as int) / 0x1_0000_0000 == dir_cluster,
        ino_at(dir_cluster, offset as int) % 0x1_0000_0000 == offset,
{
}

// ---- Mounting -------------------------------------------------------------------------

/// The boot sector of the volume that starts at sector `start`.
pub open spec fn boot_at(disk: Seq<u8>, start: int) -> structures::BootView {
    structures::dec_boot(disk.subrange(start * 512, start * 512 + 512))
}

/// The FSInfo sector at sector `lba`.
pub open spec fn info_at(disk: Seq<u8>, lba: int) -> structures::FsInfoView {
    structures::dec_fsinfo(disk.subrange(lba * 512, lba * 512 + 512))
}

/// Why the volume that starts at sector `start` cannot be mounted, if it cannot.
#[verifier::opaque]
pub open spec fn mount_error(disk: Seq<u8>, start: int) -> Option<Error> {
    if start * 512 + 512 > disk.len() {
        Some(Error::MissingCriticalSectors)
    } else {
        let b = boot_at(disk, start);
        match structures::variant_of(b) {
            None => Some(Error::InvalidFs),
            Some(FatVariant::Fat32) => if !structures::strictly_fat32(b) {
                Some(Error::InvalidFs)
            } else if (start + b.fs_info) * 512 + 512 > disk.len() {
                Some(Error::MissingCriticalSectors)
            } else if !structures::valid_fsinfo(info_at(disk, start + b.fs_info)) {
                Some(Error::InvalidFs)
            } else {
                None
            },
            Some(_) => None,
        }
    }
}

/// The state of a volume that has just been mounted.
pub open spec fn mounted(disk: Seq<u8>, start: u64, size: u64) -> FatState {
    let b = boot_at(disk, start as int);
    let v = structures::variant_of(b)->Some_0;
    FatState {
        disk,
        boot: b,
        variant: v,
        start,
        size,
        info: if v is Fat32 {
            Some(info_at(disk, start + b.fs_info))
        } else {
            None
        },
        inodes: Map::empty(),
    }
}

fn read_sector(device: &mut BlockDevice, lba: u64) -> (r: Option<Vec<u8>>)
    requires
        old(device).wf(),
    ensures
        final(device).wf(),
        final(device)@ == old(device)@,
        match r {
            Some(d) => lba * 512 + 512 <= block_device::flat(old(device)@).len() && d@
                == block_device::flat(old(device)@).subrange(lba * 512, lba * 512 + 512)
                && d@.len() == 512,
            None => lba * 512 + 512 > block_device::flat(old(device)@).len(),
        },
{
    let n: u64 = device.page_count();
    proof {
        device.lemma_wf();
    }
    if lba / 8 >= n {
        return None;
    }
    match device.read_bytes(lba * 512, 512) {
        Ok(d) => Some(d),
        Err(_) => None,
    }
}

impl Fatfs {
    /// Mounts the volume of `size_sectors` sectors that starts at sector
    /// `starting_lba`.
    pub fn new(device: BlockDevice, starting_lba: u64, size_sectors: u64) -> (r: Result<
        Fatfs,
        Error,
    >)
        requires
            device.wf(),
        ensures
            match r {
                Ok(f) => f.wf() && mount_error(
                    block_device::flat(device@),
                    starting_lba as int,
                ) is None && f@ == mounted(
                    block_device::flat(device@),
                    starting_lba,
                    size_sectors,
                ),
                Err(e) => mount_error(block_device::flat(device@), starting_lba as int) == Some(e),
            },
    {
        reveal(mount_error);
        let mut device = device;
        let ghost disk = block_device::flat(device@);
        proof {
            device.lemma_wf();
        }
        let boot = match read_sector(&mut device, starting_lba) {
            Some(d) => d,
            None => {
                return Err(Error::MissingCriticalSectors);
            },
        };
        let boot_info = Fat32BootSector::decode(boot.as_slice());
        let variant = match boot_info.determine_fat_variant() {
            Some(v) => v,
            None => {
                return Err(Error::InvalidFs);
            },
        };
        let mut fs_info: Option<FsInfo> = None;
        if variant == FatVariant::Fat32 {
            if !boot_info.is_fat32() {
                return Err(Error::InvalidFs);
            }
            let d = match read_sector(&mut device, starting_lba + boot_info.fs_info as u64) {
                Some(d) => d,
                None => {
                    return Err(Error::MissingCriticalSectors);
                },
            };
            let f = FsInfo::decode(d.as_slice());
            if !f.is_valid() {
                return Err(Error::InvalidFs);
            }
            fs_info = Some(f);
        }
        let f = Fatfs {
            boot_info,
            variant,
            starting_lba,
            size_sectors,
            device,
            fs_info,
            inode_table: SortedMap::new(),
        };
        assert(f@ =~= mounted(disk, starting_lba, size_sectors));
        Ok(f)
    }
}

// ---- Operations as functions ------------------------------------------------------------

/// What entries say of their files.
pub open spec fn files(es: Seq<EntryView>) -> Seq<FileView> {
    es.map_values(|e: EntryView| entry::file_of(e))
}

/// The files of a directory.
#[verifier::opaque]
pub open spec fn list_at(st: FatState, cs: Seq<Seq<char>>) -> Result<Seq<FileView>, Error> {
    let es = if path::root_path(cs) {
        model::dir_entries(st, model::root_cluster(st))
    } else {
        match model::find(st, cs) {
            Err(e) => Err::<Seq<EntryView>, Error>(e),
            Ok(None) => Err::<Seq<EntryView>, Error>(Error::FileNotFound),
            Ok(Some(f)) => if !entry::has_attr(f.0, ATTR_DIRECTORY) {
                Err::<Seq<EntryView>, Error>(Error::NotADir)
            } else {
                model::cluster_entries(st, entry::first_cluster(f.0), model::chain_limit(st))
            },
        }
    };
    match es {
        Err(e) => Err::<Seq<FileView>, Error>(e),
        Ok(v) => Ok::<Seq<FileView>, Error>(files(v)),
    }
}

/// The entry of a file that is no directory, with its position.
pub open spec fn file_at(st: FatState, cs: Seq<Seq<char>>) -> Result<(EntryView, u32, int), Error> {
    match model::find(st, cs) {
        Err(e) => Err::<(EntryView, u32, int), Error>(e),
        Ok(None) => Err::<(EntryView, u32, int), Error>(Error::FileNotFound),
        Ok(Some(f)) => if entry::has_attr(f.0, ATTR_DIRECTORY) {
            Err::<(EntryView, u32, int), Error>(Error::NotAFile)
        } else {
            Ok::<(EntryView, u32, int), Error>(f)
        },
    }
}

/// What is remembered of a file brought up to date.
pub open spec fn remember(st: FatState, c: u32, off: int, head: u32, size: u32) -> FatState {
    if !(st.variant is Fat32) {
        st
    } else {
        let ino = ino_at(c, off);
        let e = if st.inodes.contains_key(ino) {
            st.inodes[ino]
        } else {
            FatInodeEntry {
                dir_cluster: c,
                entry_offset: off as u32,
                first_cluster: head,
                file_size: size,
                orphan: false,
            }
        };
        FatState {
            inodes: st.inodes.insert(ino, FatInodeEntry { first_cluster: head, file_size: size, ..e }),
            ..st
        }
    }
}

/// What is remembered of a file changed, if anything is.
pub open spec fn amend(st: FatState, c: u32, off: int, head: Option<u32>, size: u32) -> FatState {
    let ino = ino_at(c, off);
    if !(st.variant is Fat32) || !st.inodes.contains_key(ino) {
        st
    } else {
        let e = st.inodes[ino];
        FatState {
            inodes: st.inodes.insert(
                ino,
                FatInodeEntry {
                    first_cluster: match head {
                        Some(h) => h,
                        None => e.first_cluster,
                    },
                    file_size: size,
                    ..e
                },
            ),
            ..st
        }
    }
}

/// `data` written to a file.
#[verifier::opaque]
pub open spec fn write_at_path(
    st: FatState,
    cs: Seq<Seq<char>>,
    offset: int,
    data: Seq<u8>,
    now: u64,
) -> (FatState, Result<u64, Error>) {
    if data.len() == 0 {
        (st, Ok::<u64, Error>(0))
    } else if offset + data.len() > u64::MAX {
        (st, Err::<u64, Error>(Error::InvalidArgument))
    } else {
        match file_at(st, cs) {
            Err(e) => (st, Err::<u64, Error>(e)),
            Ok(f) => {
                let (s1, r1) = crate::fat32::write::write_file(
                    st,
                    f.0,
                    Some((f.1, f.2)),
                    offset,
                    data,
                );
                match r1 {
                    Err(e) => (s1, Err::<u64, Error>(e)),
                    Ok(head) => {
                        let end = offset + data.len();
                        let size = (if f.0.file_size > end {
                            f.0.file_size as int
                        } else {
                            end
                        } % 0x1_0000_0000) as u32;
                        let (s2, r2) = model::patch(
                            s1,
                            f.1,
                            f.2,
                            Change::Grown(size, types::file_time_of(now)),
                        );
                        match r2 {
                            Err(e) => (s2, Err::<u64, Error>(e)),
                            Ok(_) => (
                                remember(s2, f.1, f.2, head, size),
                                Ok::<u64, Error>(data.len() as u64),
                            ),
                        }
                    },
                }
            },
        }
    }
}

/// A new entry, stamped with a time.
pub open spec fn stamped(name: Seq<u8>, attributes: u8, c: u32, t: FileTime, tenth: u8) -> EntryView {
    EntryView {
        name,
        attributes,
        creation_time_tenth: tenth,
        creation_time: t.time,
        creation_date: t.date,
        last_access_date: t.date,
        write_time: t.time,
        write_date: t.date,
        ..entry::with_cluster(entry::zero_entry(), c)
    }
}

/// A new entry put into a directory under a name.
#[verifier::opaque]
pub open spec fn add_entry(
    st: FatState,
    dir: u32,
    name: Seq<char>,
    attributes: u8,
    c: u32,
    t: FileTime,
    tenth: u8,
) -> (FatState, Result<(u32, int), Error>) {
    if name.len() > MAX_NAME_CHARS {
        (st, Err::<(u32, int), Error>(Error::NoSpace))
    } else {
        match names::short_for(st, dir, name) {
            Err(e) => (st, Err::<(u32, int), Error>(e)),
            Ok((short, long)) => model::append(
                st,
                dir,
                model::slots_of(
                    stamped(entry::fat_name(short), attributes, c, t, tenth),
                    if long {
                        Some(name)
                    } else {
                        None
                    },
                ),
                model::chain_limit(st),
            ),
        }
    }
}

/// A new, empty file.
#[verifier::opaque]
pub open spec fn create_file_at(st: FatState, cs: Seq<Seq<char>>, now: u64) -> (
    FatState,
    Result<(), Error>,
) {
    match model::parent(st, cs) {
        Err(e) => (st, Err::<(), Error>(e)),
        Ok(dir) => match model::find(st, cs) {
            Err(e) => (st, Err::<(), Error>(e)),
            Ok(Some(_)) => (st, Err::<(), Error>(Error::IoError)),
            Ok(None) => {
                let t = types::file_time_of(now);
                let (s, r) = add_entry(st, dir, cs.last(), 0x20, 0, t, t.tenth);
                match r {
                    Err(e) => (s, Err::<(), Error>(e)),
                    Ok((c, off)) => (
                        if s.variant is Fat32 {
                            FatState {
                                inodes: s.inodes.insert(
                                    ino_at(c, off),
                                    FatInodeEntry {
                                        dir_cluster: c,
                                        entry_offset: off as u32,
                                        first_cluster: 0,
                                        file_size: 0,
                                        orphan: false,
                                    },
                                ),
                                ..s
                            }
                        } else {
                            s
                        },
                        Ok::<(), Error>(()),
                    ),
                }
            },
        },
    }
}

/// The first cluster of a new directory: the entries for itself and its parent.
pub open spec fn fresh_dir(size: int, own: u32, up: u32, t: FileTime) -> Seq<u8> {
    bytes::splice(
        bytes::splice(
            bytes::zeros(size),
            0,
            entry::enc_entry(stamped(entry::fat_name(seq!['.']), 0x10, own, t, 0)),
        ),
        32,
        entry::enc_entry(stamped(entry::fat_name(seq!['.', '.']), 0x10, up, t, 0)),
    )
}

/// A new, empty directory.
#[verifier::opaque]
pub open spec fn create_dir_at(st: FatState, cs: Seq<Seq<char>>, now: u64) -> (
    FatState,
    Result<(), Error>,
) {
    match model::parent(st, cs) {
        Err(e) => (st, Err::<(), Error>(e)),
        Ok(dir) => match model::find(st, cs) {
            Err(e) => (st, Err::<(), Error>(e)),
            Ok(Some(_)) => (st, Err::<(), Error>(Error::IoError)),
            Ok(None) => {
                let t = types::file_time_of(now);
                let (s1, r1) = model::take_cluster(st);
                match r1 {
                    Err(e) => (s1, Err::<(), Error>(e)),
                    Ok(c) => {
                        let (s2, r2) = model::write(
                            s1,
                            model::cluster_lba(s1, c),
                            fresh_dir(model::bpc(st), c, dir, t),
                        );
                        match r2 {
                            Err(e) => (s2, Err::<(), Error>(e)),
                            Ok(_) => {
                                let (s3, r3) = add_entry(s2, dir, cs.last(), 0x10, c, t, 0);
                                match r3 {
                                    Err(e) => (s3, Err::<(), Error>(e)),
                                    Ok(_) => (s3, Ok::<(), Error>(())),
                                }
                            },
                        }
                    },
                }
            },
        },
    }
}

/// An entry and its long name removed from a directory.
pub open spec fn unlink(st: FatState, dir: u32, f: (EntryView, u32, int)) -> (
    FatState,
    Result<(), Error>,
) {
    let (s1, r1) = model::mark_deleted(st, f.1, f.2);
    match r1 {
        Err(e) => (s1, Err::<(), Error>(if e == Error::Corrupted {
            Error::IoError
        } else {
            e
        })),
        Ok(_) => model::delete_long(
            s1,
            dir,
            f.1,
            f.2,
            entry::name_checksum(f.0.name),
            Seq::empty(),
            model::chain_limit(s1),
        ),
    }
}

/// A chain freed, if there is one.
pub open spec fn free_data(st: FatState, start: u32) -> (FatState, Result<(), Error>) {
    if start < 2 {
        (st, Ok::<(), Error>(()))
    } else {
        let (s, r) = model::free_chain(st, start);
        (
            s,
            match r {
                Ok(_) => Ok::<(), Error>(()),
                Err(e) => Err::<(), Error>(e),
            },
        )
    }
}

/// A file removed. On FAT32 its data stays until the last user is gone.
#[verifier::opaque]
pub open spec fn remove_file_at(st: FatState, cs: Seq<Seq<char>>) -> (FatState, Result<(), Error>) {
    match model::parent(st, cs) {
        Err(e) => (st, Err::<(), Error>(e)),
        Ok(dir) => match file_at(st, cs) {
            Err(e) => (st, Err::<(), Error>(e)),
            Ok(f) => {
                let (s1, r1) = if st.variant is Fat32 {
                    (st, Ok::<(), Error>(()))
                } else {
                    free_data(st, entry::first_cluster(f.0))
                };
                if r1 is Err {
                    (s1, r1)
                } else {
                    let (s2, r2) = unlink(s1, dir, f);
                    if r2 is Err {
                        (s2, r2)
                    } else {
                        (orphaned(s2, f.1, f.2), r2)
                    }
                }
            },
        },
    }
}

/// What is remembered of a file marked as without a name, if anything is.
pub open spec fn orphaned(st: FatState, c: u32, off: int) -> FatState {
    let ino = ino_at(c, off);
    if st.variant is Fat32 && st.inodes.contains_key(ino) {
        FatState {
            inodes: st.inodes.insert(ino, FatInodeEntry { orphan: true, ..st.inodes[ino] }),
            ..st
        }
    } else {
        st
    }
}

/// Whether a directory cluster holds nothing but the entries for the directory itself
/// and its parent, up to its end.
pub open spec fn bare(d: Seq<u8>, off: int) -> bool
    decreases d.len() - off,
{
    if off + 32 > d.len() || d[off] == 0 {
        true
    } else if d[off] == 0xE5 || d[off + 11] == ATTR_LONG_NAME {
        bare(d, off + 32)
    } else {
        let n = entry::entry_name(entry::dec_entry(d, off));
        (n == seq!['.'] || n == seq!['.', '.']) && bare(d, off + 32)
    }
}

/// Whether the directory from cluster `c` on is empty.
pub open spec fn empty_dir(st: FatState, c: u32, fuel: int) -> Result<bool, Error>
    decreases fuel,
{
    if fuel <= 0 {
        Err::<bool, Error>(Error::Corrupted)
    } else {
        match model::read(st, model::cluster_lba(st, c), model::spc(st)) {
            Err(e) => Err::<bool, Error>(e),
            Ok(d) => if !bare(d, 0) {
                Ok::<bool, Error>(false)
            } else {
                match model::fat_next(st, c) {
                    Err(e) => Err::<bool, Error>(e),
                    Ok(None) => Ok::<bool, Error>(true),
                    Ok(Some(n)) => empty_dir(st, n, fuel - 1),
                }
            },
        }
    }
}

/// An empty directory removed.
#[verifier::opaque]
pub open spec fn remove_dir_at(st: FatState, cs: Seq<Seq<char>>) -> (FatState, Result<(), Error>) {
    if path::root_path(cs) {
        (st, Err::<(), Error>(Error::NotADir))
    } else {
        match model::parent(st, cs) {
            Err(e) => (st, Err::<(), Error>(e)),
            Ok(dir) => match model::find(st, cs) {
                Err(e) => (st, Err::<(), Error>(e)),
                Ok(None) => (st, Err::<(), Error>(Error::FileNotFound)),
                Ok(Some(f)) => if !entry::has_attr(f.0, ATTR_DIRECTORY) {
                    (st, Err::<(), Error>(Error::NotADir))
                } else {
                    let start = entry::first_cluster(f.0);
                    let empty = if start < 2 {
                        Ok::<bool, Error>(true)
                    } else {
                        empty_dir(st, start, model::chain_limit(st))
                    };
                    match empty {
                        Err(e) => (st, Err::<(), Error>(e)),
                        Ok(false) => (st, Err::<(), Error>(Error::IoError)),
                        Ok(true) => {
                            let (s1, r1) = free_data(st, start);
                            if r1 is Err {
                                (s1, r1)
                            } else {
                                unlink(s1, dir, f)
                            }
                        },
                    }
                },
            },
        }
    }
}

/// The size of a file set. Only a file that is emptied gives up its clusters.
#[verifier::opaque]
pub open spec fn truncate_at(st: FatState, cs: Seq<Seq<char>>, size: u64) -> (
    FatState,
    Result<(), Error>,
) {
    match file_at(st, cs) {
        Err(e) => (st, Err::<(), Error>(e)),
        Ok(f) => if size > u32::MAX {
            (st, Err::<(), Error>(Error::IoError))
        } else if size == 0 {
            let (s1, r1) = free_data(st, entry::first_cluster(f.0));
            if r1 is Err {
                (s1, r1)
            } else {
                let (s2, r2) = model::patch(s1, f.1, f.2, Change::Emptied);
                if r2 is Err {
                    (s2, r2)
                } else {
                    (amend(s2, f.1, f.2, Some(0), 0), r2)
                }
            }
        } else {
            let (s1, r1) = model::patch(st, f.1, f.2, Change::Size(size as u32));
            if r1 is Err {
                (s1, r1)
            } else {
                (amend(s1, f.1, f.2, None, size as u32), r1)
            }
        },
    }
}

/// A file renamed within its directory. Only its short name changes; a long name is
/// deleted.
#[verifier::opaque]
pub open spec fn rename_at(st: FatState, from: Seq<Seq<char>>, to: Seq<Seq<char>>) -> (
    FatState,
    Result<(), Error>,
) {
    if from.len() == 0 || to.len() == 0 {
        (st, Err::<(), Error>(Error::IoError))
    } else if from.drop_last() != to.drop_last() {
        (st, Err::<(), Error>(Error::Unsupported))
    } else {
        match model::find(st, from) {
            Err(e) => (st, Err::<(), Error>(e)),
            Ok(None) => (st, Err::<(), Error>(Error::FileNotFound)),
            Ok(Some(f)) => match names::short_for(st, f.1, to.last()) {
                Err(e) => (st, Err::<(), Error>(e)),
                Ok((short, _)) => match model::parent(st, from) {
                    Err(e) => (st, Err::<(), Error>(e)),
                    Ok(dir) => {
                        let (s1, r1) = model::delete_long(
                            st,
                            dir,
                            f.1,
                            f.2,
                            entry::name_checksum(f.0.name),
                            Seq::empty(),
                            model::chain_limit(st),
                        );
                        if r1 is Err {
                            (s1, r1)
                        } else {
                            model::patch(s1, f.1, f.2, Change::Name(entry::fat_name(short)))
                        }
                    },
                },
            },
        }
    }
}

/// The number of a file, which is remembered on FAT32.
#[verifier::opaque]
pub open spec fn number_of(st: FatState, cs: Seq<Seq<char>>) -> (FatState, Result<u64, Error>) {
    if path::root_path(cs) {
        (st, Ok::<u64, Error>(st.boot.root_cluster as u64))
    } else {
        match model::find(st, cs) {
            Err(e) => (st, Err::<u64, Error>(e)),
            Ok(None) => (st, Err::<u64, Error>(Error::FileNotFound)),
            Ok(Some(f)) => if st.variant is Fat32 {
                (
                    remember(st, f.1, f.2, entry::first_cluster(f.0), f.0.file_size),
                    Ok::<u64, Error>(ino_at(f.1, f.2)),
                )
            } else {
                (st, Ok::<u64, Error>(entry::first_cluster(f.0) as u64))
            },
        }
    }
}

// ---- Operations -----------------------------------------------------------------------

proof fn lemma_utf16_len(s: Seq<char>)
    ensures
        text::utf16(s).len() <= 2 * s.len(),
    decreases s.len(),
{
    if s.len() > 0 {
        lemma_utf16_len(s.drop_last());
    }
}

/// Whether a directory cluster holds nothing but the entries for the directory itself
/// and its parent.
fn is_bare(d: &[u8]) -> (r: bool)
    ensures
        r == bare(d@, 0),
{
    let mut off: usize = 0;
    while d.len() - off >= 32
        invariant
            off <= d.len(),
            bare(d@, 0) == bare(d@, off as int),
        decreases d.len() - off,
    {
        let first: u8 = d[off];
        if first == 0 {
            return true;
        }
        if first != 0xE5 && d[off + 11] != ATTR_LONG_NAME {
            let e = DirectoryEntry::decode(d, off);
            let n = e.fat_name_to_string();
            let one: bool = n.as_str().unicode_len() == 1 && n.as_str().get_char(0) == '.';
            let two: bool = n.as_str().unicode_len() == 2 && n.as_str().get_char(0) == '.'
                && n.as_str().get_char(1) == '.';
            proof {
                if one {
                    assert(n@ =~= seq!['.']);
                }
                if two {
                    assert(n@ =~= seq!['.', '.']);
                }
            }
            if !one && !two {
                return false;
            }
        }
        off = off + 32;
    }
    true
}

impl Fatfs {
    /// What there is of a file that is no directory.
    fn find_file(&mut self, p: &Path) -> (r: Result<Found, Error>)
        requires
            old(self).wf(),
        ensures
            final(self).wf(),
            final(self)@ == old(self)@,
            match r {
                Ok(f) => file_at(old(self)@, path::normalized(p@)) == Ok::<
                    (EntryView, u32, int),
                    Error,
                >((f.0@, f.1, f.2 as int)) && f.0.wf() && f.2 < 0x20_0000,
                Err(e) => file_at(old(self)@, path::normalized(p@)) == Err::<
                    (EntryView, u32, int),
                    Error,
                >(e),
            },
    {
        match self.find_dir_entry(p) {
            Ok(Some(f)) => if f.0.is_directory() {
                Err(Error::NotAFile)
            } else {
                Ok(f)
            },
            Ok(None) => Err(Error::FileNotFound),
            Err(e) => Err(e),
        }
    }

    /// Brings what is remembered of a file up to date.
    fn remember_file(&mut self, c: u32, off: usize, head: u32, size: u32)
        requires
            old(self).wf(),
            off <= u32::MAX,
        ensures
            final(self).wf(),
            final(self)@ == remember(old(self)@, c, off as int, head, size),
    {
        if self.variant != FatVariant::Fat32 {
            return;
        }
        let ino: u64 = fat_ino_from_pos(c, off);
        let e = match self.inode_table.get(ino) {
            Some(e) => *e,
            None => FatInodeEntry {
                dir_cluster: c,
                entry_offset: off as u32,
                first_cluster: head,
                file_size: size,
                orphan: false,
            },
        };
        self.inode_table.insert(ino, FatInodeEntry { first_cluster: head, file_size: size, ..e });
        assert(self@ =~= remember(old(self)@, c, off as int, head, size));
    }

    /// Changes what is remembered of a file, if anything is.
    fn amend_file(&mut self, c: u32, off: usize, head: Option<u32>, size: u32)
        requires
            old(self).wf(),
            off <= u32::MAX,
        ensures
            final(self).wf(),
            final(self)@ == amend(old(self)@, c, off as int, head, size),
    {
        if self.variant != FatVariant::Fat32 {
            return;
        }
        let ino: u64 = fat_ino_from_pos(c, off);
        let cur: Option<FatInodeEntry> = match self.inode_table.get(ino) {
            Some(e) => Some(*e),
            None => None,
        };
        match cur {
            Some(e) => {
                let h: u32 = match head {
                    Some(h) => h,
                    None => e.first_cluster,
                };
                self.inode_table.insert(
                    ino,
                    FatInodeEntry { first_cluster: h, file_size: size, ..e },
                );
            },
            None => {},
        }
        assert(self@ =~= amend(old(self)@, c, off as int, head, size));
    }

    /// Puts a new entry into a directory under a name.
    fn insert_entry(
        &mut self,
        dir: u32,
        name: &str,
        attributes: u8,
        c: u32,
        t: FileTime,
        tenth: u8,
    ) -> (r: Result<(u32, usize), Error>)
        requires
            old(self).wf(),
        ensures
            final(self).wf(),
            driver::same_layout(final(self)@, old(self)@),
            final(self)@.inodes == old(self)@.inodes,
            ({
                let (s, m) = add_entry(old(self)@, dir, name@, attributes, c, t, tenth);
                &&& final(self)@ == s
                &&& match r {
                    Ok(x) => m == Ok::<(u32, int), Error>((x.0, x.1 as int)),
                    Err(e) => m == Err::<(u32, int), Error>(e),
                }
            }),
            r matches Ok(x) ==> x.1 < 0x20_0000,
    {
        reveal(add_entry);
        if name.unicode_len() > MAX_NAME_CHARS {
            return Err(Error::NoSpace);
        }
        proof {
            lemma_utf16_len(name@);
        }
        let (short, long) = match self.generate_short_name(dir, name) {
            Ok(x) => x,
            Err(e) => {
                return Err(e);
            },
        };
        let e = new_entry(short.as_str(), attributes, c, t, tenth);
        if long {
            self.append_dir_entry(dir, &e, Some(name))
        } else {
            self.append_dir_entry(dir, &e, None)
        }
    }

    fn free_file_data(&mut self, start: u32) -> (r: Result<(), Error>)
        requires
            old(self).wf(),
        ensures
            final(self).wf(),
            driver::same_layout(final(self)@, old(self)@),
            final(self)@.inodes == old(self)@.inodes,
            (final(self)@, r) == free_data(old(self)@, start),
    {
        if start < 2 {
            return Ok(());
        }
        match self.free_cluster_chain(start) {
            Ok(_) => Ok(()),
            Err(e) => Err(e),
        }
    }

    fn unlink_entry(&mut self, dir: u32, f: &Found) -> (r: Result<(), Error>)
        requires
            old(self).wf(),
        ensures
            final(self).wf(),
            driver::same_layout(final(self)@, old(self)@),
            final(self)@.inodes == old(self)@.inodes,
            (final(self)@, r) == unlink(old(self)@, dir, (f.0@, f.1, f.2 as int)),
    {
        match self.mark_entry_deleted(f.1, f.2) {
            Ok(_) => {},
            Err(e) => {
                return Err(if e == Error::Corrupted {
                    Error::IoError
                } else {
                    e
                });
            },
        }
        self.delete_long_name_sequence(dir, f.1, f.2, f.0.short_name_checksum())
    }

    fn dir_is_empty(&mut self, start: u32) -> (r: Result<bool, Error>)
        requires
            old(self).wf(),
        ensures
            final(self).wf(),
            final(self)@ == old(self)@,
            r == empty_dir(old(self)@, start, model::chain_limit(old(self)@)),
    {
        let spc: u16 = self.boot_info.sectors_per_cluster as u16;
        let limit: u64 = self.chain_limit();
        let mut fuel: u64 = limit;
        let mut cur: u32 = start;
        while fuel > 0
            invariant
                self.wf(),
                self@ == old(self)@,
                spc == model::spc(self@),
                limit == model::chain_limit(self@),
                empty_dir(self@, start, limit as int) == empty_dir(self@, cur, fuel as int),
            decreases fuel,
        {
            let lba: u64 = self.cluster_to_lba(cur);
            let d = match self.read_disk_sectors(lba, spc) {
                Ok(d) => d,
                Err(e) => {
                    return Err(e);
                },
            };
            if !is_bare(d.as_slice()) {
                return Ok(false);
            }
            let next: Option<u32> = match self.get_fat_entry(cur) {
                Ok(x) => x,
                Err(e) => {
                    return Err(e);
                },
            };
            match next {
                Some(n) => {
                    cur = n;
                },
                None => {
                    return Ok(true);
                },
            }
            fuel = fuel - 1;
        }
        Err(Error::Corrupted)
    }
}

/// A new entry, stamped with a time.
fn new_entry(name: &str, attributes: u8, c: u32, t: FileTime, tenth: u8) -> (e: DirectoryEntry)
    ensures
        e.wf(),
        e@ == stamped(entry::fat_name(name@), attributes, c, t, tenth),
{
    let mut e = DirectoryEntry::zeroed();
    e.set_name_from_string(name);
    e.attributes = attributes;
    e.set_first_cluster(c);
    e.creation_date = t.date;
    e.creation_time = t.time;
    e.creation_time_tenth = tenth;
    e.write_date = t.date;
    e.write_time = t.time;
    e.last_access_date = t.date;
    e
}

/// The name of a FAT variant.
pub open spec fn variant_name(v: FatVariant) -> Seq<char> {
    match v {
        FatVariant::Fat12 => "fat12"@,
        FatVariant::Fat16 => "fat16"@,
        FatVariant::Fat32 => "fat32"@,
    }
}

/// Length of a volume label without the spaces and zeros at its end.
pub open spec fn label_len(b: Seq<u8>) -> int
    decreases b.len(),
{
    if b.len() == 0 {
        0
    } else if b.last() != 0x20 && b.last() != 0 {
        b.len() as int
    } else {
        label_len(b.drop_last())
    }
}

/// A volume label filled up with zeros.
pub open spec fn label_field(b: Seq<u8>) -> Seq<u8> {
    b.take(label_len(b)) + bytes::zeros(64 - label_len(b))
}

fn volume_name(b: &[u8]) -> (r: Vec<u8>)
    requires
        b.len() <= 64,
    ensures
        r@ == label_field(b@),
{
    let mut n: usize = b.len();
    assert(b@.take(n as int) =~= b@);
    while n > 0 && (b[n - 1] == 0x20 || b[n - 1] == 0)
        invariant
            n <= b.len(),
            label_len(b@) == label_len(b@.take(n as int)),
        decreases n,
    {
        assert(b@.take(n as int).drop_last() =~= b@.take(n - 1));
        n = n - 1;
    }
    let mut out = sub_vec(b, 0, n);
    assert(out@ =~= b@.take(n as int));
    let pad = zero_vec(64 - n);
    push_slice(&mut out, pad.as_slice());
    out
}

impl FileSystem for Fatfs {
    open spec fn inv(&self) -> bool {
        self.wf()
    }

    fn list_files(&mut self, path: &Path) -> (r: Result<Vec<File>, Error>)
        ensures
            final(self)@ == old(self)@,
            types::files_of(r) == list_at(old(self)@, path::normalized(path@)),
    {
        reveal(list_at);
        let p = path.normalize();
        let listed = if p.is_root() {
            let root: u32 = self.root_dir_cluster();
            self.list_dir(root)
        } else {
            match self.find_dir_entry(&p) {
                Ok(Some(f)) => if !f.0.is_directory() {
                    Err(Error::NotADir)
                } else {
                    self.get_dir_entries(f.0.first_cluster())
                },
                Ok(None) => Err(Error::FileNotFound),
                Err(e) => Err(e),
            }
        };
        proof {
            path::normalize_is_idempotent(path@);
        }
        let es = match listed {
            Ok(v) => v,
            Err(e) => {
                return Err(e);
            },
        };
        let mut out: Vec<File> = Vec::new();
        let ghost ev = entry::entry_views(es@);
        let mut i: usize = 0;
        assert(types::file_views(out@) =~= files(ev.take(0)));
        while i < es.len()
            invariant
                i <= es.len(),
                self.wf(),
                self@ == old(self)@,
                traverse::all_wf(es@),
                ev == entry::entry_views(es@),
                types::file_views(out@) == files(ev.take(i as int)),
            decreases es.len() - i,
        {
            let f = es[i].to_file();
            let ghost before = types::file_views(out@);
            let ghost fv = f@;
            out.push(f);
            proof {
                assert(types::file_views(out@) =~= before.push(fv));
                assert(ev.take(i + 1) =~= ev.take(i as int).push(ev[i as int]));
                assert(types::file_views(out@) =~= files(ev.take(i + 1)));
            }
            i = i + 1;
        }
        assert(ev.take(ev.len() as int) =~= ev);
        Ok(out)
    }

    fn read_bytes(&mut self, path: &Path, offset: usize, count: usize) -> (r: Result<
        Vec<u8>,
        Error,
    >)
        ensures
            final(self)@ == old(self)@,
            types::bytes_of(r) == (match model::find(old(self)@, path::normalized(path@)) {
                Err(e) => Err::<Seq<u8>, Error>(e),
                Ok(None) => Err::<Seq<u8>, Error>(Error::FileNotFound),
                Ok(Some(f)) => read::file_slice(old(self)@, f.0, offset as int, count as int),
            }),
    {
        match self.find_dir_entry(path) {
            Ok(Some(f)) => self.read_file_offset(&f.0, offset, count),
            Ok(None) => Err(Error::FileNotFound),
            Err(e) => Err(e),
        }
    }

    fn file_info(&mut self, path: &Path) -> (r: Result<File, Error>)
        ensures
            final(self)@ == old(self)@,
            match r {
                Ok(x) => model::find(old(self)@, path::normalized(path@)) matches Ok(Some(f))
                    && x@ == entry::file_of(f.0),
                Err(e) => match model::find(old(self)@, path::normalized(path@)) {
                    Err(y) => e == y,
                    Ok(None) => e == Error::FileNotFound,
                    Ok(Some(_)) => false,
                },
            },
    {
        match self.find_dir_entry(path) {
            Ok(Some(f)) => Ok(f.0.to_file()),
            Ok(None) => Err(Error::FileNotFound),
            Err(e) => Err(e),
        }
    }

    fn statfs(&mut self) -> (r: Result<StatFs, Error>)
        ensures
            final(self)@ == old(self)@,
            r matches Ok(s) && s.fs_type@ == variant_name(old(self)@.variant) && s.block_size
                == model::bpc(old(self)@) && s.total_blocks == structures::cluster_count(
                old(self)@.boot,
            ) && s.free_blocks == (match old(self)@.info {
                Some(f) => if f.free_count != FSINFO_UNKNOWN {
                    f.free_count as u64
                } else {
                    0
                },
                None => 0,
            }) && s.total_inodes == 0 && s.free_inodes == 0 && s.volume_name@ == label_field(
                old(self)@.boot.volume_label,
            ) && s.version == 0 && s.block_groups == 0,
    {
        let free: u64 = match &self.fs_info {
            Some(f) => if f.has_free_count() {
                f.free_count as u64
            } else {
                0
            },
            None => 0,
        };
        Ok(
            StatFs {
                fs_type: match self.variant {
                    FatVariant::Fat12 => "fat12",
                    FatVariant::Fat16 => "fat16",
                    FatVariant::Fat32 => "fat32",
                },
                block_size: self.boot_info.bytes_per_cluster() as u64,
                total_blocks: self.boot_info.calculate_cluster_count() as u64,
                free_blocks: free,
                total_inodes: 0,
                free_inodes: 0,
                volume_name: volume_name(self.boot_info.volume_label.as_slice()),
                version: 0,
                block_groups: 0,
            },
        )
    }

    fn resolve_inode(&mut self, path: &Path) -> (r: Result<u64, Error>)
        ensures
            (final(self)@, r) == number_of(old(self)@, path::normalized(path@)),
    {
        reveal(number_of);
        if path.normalize().is_root() {
            return Ok(self.boot_info.root_cluster as u64);
        }
        match self.find_dir_entry(path) {
            Ok(Some(f)) => if self.variant == FatVariant::Fat32 {
                self.remember_file(f.1, f.2, f.0.first_cluster(), f.0.file_size);
                Ok(fat_ino_from_pos(f.1, f.2))
            } else {
                Ok(f.0.first_cluster() as u64)
            },
            Ok(None) => Err(Error::FileNotFound),
            Err(e) => Err(e),
        }
    }

    fn write_bytes(&mut self, path: &Path, offset: usize, data: &[u8], now: u64) -> (r: Result<
        u64,
        Error,
    >)
        ensures
            (final(self)@, r) == write_at_path(
                old(self)@,
                path::normalized(path@),
                offset as int,
                data@,
                now,
            ),
    {
        reveal(write_at_path);
        if data.len() == 0 {
            return Ok(0);
        }
        if offset as u64 > u64::MAX - data.len() as u64 {
            return Err(Error::InvalidArgument);
        }
        let (mut e, ec, eo) = match self.find_file(path) {
            Ok(f) => f,
            Err(x) => {
                return Err(x);
            },
        };
        let ghost e0 = e@;
        let old_size: u64 = e.file_size as u64;
        let n: u64 = match self.write_file_offset(&mut e, Some((ec, eo)), offset as u64, data) {
            Ok(n) => n as u64,
            Err(x) => {
                return Err(x);
            },
        };
        let end: u64 = offset as u64 + n;
        let size: u32 = (if old_size > end {
            old_size
        } else {
            end
        } % 0x1_0000_0000) as u32;
        let t = FileTime::from_unix_secs(now);
        match self.patch_dir_entry_at(ec, eo, EntryChange::Grown(size, t)) {
            Ok(_) => {},
            Err(x) => {
                return Err(x);
            },
        }
        let head: u32 = e.first_cluster();
        self.remember_file(ec, eo, head, size);
        Ok(n)
    }

    fn create_file(&mut self, path: &Path, now: u64) -> (r: Result<(), Error>)
        ensures
            (final(self)@, r) == create_file_at(old(self)@, path::normalized(path@), now),
    {
        reveal(create_file_at);
        let (dir, name) = match self.resolve_parent_and_name(path) {
            Ok(x) => x,
            Err(e) => {
                return Err(e);
            },
        };
        match self.find_dir_entry(path) {
            Ok(Some(_)) => {
                return Err(Error::IoError);
            },
            Ok(None) => {},
            Err(e) => {
                return Err(e);
            },
        }
        let t = FileTime::from_unix_secs(now);
        let (c, off) = match self.insert_entry(dir, name.as_str(), 0x20, 0, t, t.tenth) {
            Ok(x) => x,
            Err(e) => {
                return Err(e);
            },
        };
        if self.variant == FatVariant::Fat32 {
            let ghost mid = self@;
            let ino: u64 = fat_ino_from_pos(c, off);
            self.inode_table.insert(
                ino,
                FatInodeEntry {
                    dir_cluster: c,
                    entry_offset: off as u32,
                    first_cluster: 0,
                    file_size: 0,
                    orphan: false,
                },
            );
            assert(self@ =~= create_file_at(old(self)@, path::normalized(path@), now).0);
        }
        Ok(())
    }

    fn create_dir(&mut self, path: &Path, now: u64) -> (r: Result<(), Error>)
        ensures
            (final(self)@, r) == create_dir_at(old(self)@, path::normalized(path@), now),
    {
        reveal(create_dir_at);
        let (dir, name) = match self.resolve_parent_and_name(path) {
            Ok(x) => x,
            Err(e) => {
                return Err(e);
            },
        };
        match self.find_dir_entry(path) {
            Ok(Some(_)) => {
                return Err(Error::IoError);
            },
            Ok(None) => {},
            Err(e) => {
                return Err(e);
            },
        }
        let c: u32 = match self.alloc_cluster() {
            Ok(c) => c,
            Err(e) => {
                return Err(e);
            },
        };
        let t = FileTime::from_unix_secs(now);
        proof {
            reveal_strlit(".");
            reveal_strlit("..");
            assert("."@ =~= seq!['.']);
            assert(".."@ =~= seq!['.', '.']);
        }
        let dot = new_entry(".", 0x10, c, t, 0).encode();
        let dotdot = new_entry("..", 0x10, dir, t, 0).encode();
        let bpc: usize = self.boot_info.sectors_per_cluster as usize * 512;
        let mut buf = zero_vec(bpc);
        write_at(&mut buf, 0, dot.as_slice());
        write_at(&mut buf, 32, dotdot.as_slice());
        let lba: u64 = self.cluster_to_lba(c);
        match self.write_disk_sectors(lba, buf.as_slice()) {
            Ok(_) => {},
            Err(e) => {
                return Err(e);
            },
        }
        match self.insert_entry(dir, name.as_str(), 0x10, c, t, 0) {
            Ok(_) => Ok(()),
            Err(e) => Err(e),
        }
    }

    fn remove_dir(&mut self, path: &Path, now: u64) -> (r: Result<(), Error>)
        ensures
            (final(self)@, r) == remove_dir_at(old(self)@, path::normalized(path@)),
    {
        reveal(remove_dir_at);
        if path.normalize().is_root() {
            return Err(Error::NotADir);
        }
        let (dir, _) = match self.resolve_parent_and_name(path) {
            Ok(x) => x,
            Err(e) => {
                return Err(e);
            },
        };
        let f = match self.find_dir_entry(path) {
            Ok(Some(f)) => f,
            Ok(None) => {
                return Err(Error::FileNotFound);
            },
            Err(e) => {
                return Err(e);
            },
        };
        if !f.0.is_directory() {
            return Err(Error::NotADir);
        }
        let start: u32 = f.0.first_cluster();
        if start >= 2 {
            match self.dir_is_empty(start) {
                Ok(true) => {},
                Ok(false) => {
                    return Err(Error::IoError);
                },
                Err(e) => {
                    return Err(e);
                },
            }
        }
        let r = self.free_file_data(start);
        if r.is_err() {
            return r;
        }
        self.unlink_entry(dir, &f)
    }

    fn remove_file(&mut self, path: &Path, now: u64) -> (r: Result<(), Error>)
        ensures
            (final(self)@, r) == remove_file_at(old(self)@, path::normalized(path@)),
    {
        reveal(remove_file_at);
        let (dir, _) = match self.resolve_parent_and_name(path) {
            Ok(x) => x,
            Err(e) => {
                return Err(e);
            },
        };
        let f = match self.find_file(path) {
            Ok(f) => f,
            Err(e) => {
                return Err(e);
            },
        };
        if self.variant != FatVariant::Fat32 {
            let r = self.free_file_data(f.0.first_cluster());
            if r.is_err() {
                return r;
            }
        }
        let r = self.unlink_entry(dir, &f);
        if r.is_err() {
            return r;
        }
        if self.variant == FatVariant::Fat32 {
            let ghost mid = self@;
            let ino: u64 = fat_ino_from_pos(f.1, f.2);
            let cur: Option<FatInodeEntry> = match self.inode_table.get(ino) {
                Some(e) => Some(*e),
                None => None,
            };
            match cur {
                Some(e) => {
                    self.inode_table.insert(ino, FatInodeEntry { orphan: true, ..e });
                },
                None => {},
            }
            assert(self@ =~= orphaned(mid, f.1, f.2 as int));
        }
        r
    }

    fn flush(&mut self) -> (r: Result<(), Error>)
        ensures
            (final(self)@, r) == (if old(self)@.variant is Fat32 {
                table::save_info(old(self)@)
            } else {
                (old(self)@, Ok::<(), Error>(()))
            }),
            r is Ok ==> final(self).device.persisted() == final(self).device@,
    {
        if self.variant == FatVariant::Fat32 {
            let r = self.save_fs_info();
            if r.is_err() {
                return r;
            }
        }
        self.flush_device();
        Ok(())
    }

    fn truncate(&mut self, path: &Path, size: u64, now: u64) -> (r: Result<(), Error>)
        ensures
            (final(self)@, r) == truncate_at(old(self)@, path::normalized(path@), size),
    {
        reveal(truncate_at);
        let f = match self.find_file(path) {
            Ok(f) => f,
            Err(e) => {
                return Err(e);
            },
        };
        if size > u32::MAX as u64 {
            return Err(Error::IoError);
        }
        if size == 0 {
            let r = self.free_file_data(f.0.first_cluster());
            if r.is_err() {
                return r;
            }
            let r = self.patch_dir_entry_at(f.1, f.2, EntryChange::Emptied);
            if r.is_err() {
                return r;
            }
            self.amend_file(f.1, f.2, Some(0), 0);
            r
        } else {
            let r = self.patch_dir_entry_at(f.1, f.2, EntryChange::Size(size as u32));
            if r.is_err() {
                return r;
            }
            self.amend_file(f.1, f.2, None, size as u32);
            r
        }
    }

    fn rename(&mut self, old_path: &Path, new_path: &Path, now: u64) -> (r: Result<(), Error>)
        ensures
            (final(self)@, r) == rename_at(
                old(self)@,
                path::normalized(old_path@),
                path::normalized(new_path@),
            ),
    {
        reveal(rename_at);
        let from = old_path.normalize();
        let to = new_path.normalize();
        proof {
            path::normalize_is_idempotent(old_path@);
        }
        let (from_dir, to_dir) = match (from.parent(), to.parent()) {
            (Some(a), Some(b)) => (a, b),
            _ => {
                return Err(Error::IoError);
            },
        };
        if !from_dir.same(&to_dir) {
            return Err(Error::Unsupported);
        }
        let f = match self.find_dir_entry(&from) {
            Ok(Some(f)) => f,
            Ok(None) => {
                return Err(Error::FileNotFound);
            },
            Err(e) => {
                return Err(e);
            },
        };
        let name: &str = match to.last_component() {
            Some(n) => n,
            None => {
                return Err(Error::IoError);
            },
        };
        let (short, _) = match self.generate_short_name(f.1, name) {
            Ok(x) => x,
            Err(e) => {
                return Err(e);
            },
        };
        let (dir, _) = match self.resolve_parent_and_name(&from) {
            Ok(x) => x,
            Err(e) => {
                return Err(e);
            },
        };
        let r = self.delete_long_name_sequence(dir, f.1, f.2, f.0.short_name_checksum());
        if r.is_err() {
            return r;
        }
        let n = DirectoryEntry::string_to_fat_name(short.as_str());
        self.patch_dir_entry_at(f.1, f.2, EntryChange::Name(n))
    }

    fn file_size_ino(&mut self, ino: u64) -> (r: Result<u64, Error>)
        ensures
            final(self)@ == old(self)@,
            r == (if old(self)@.inodes.contains_key(ino) {
                Ok::<u64, Error>(old(self)@.inodes[ino].file_size as u64)
            } else {
                Err::<u64, Error>(Error::FileNotFound)
            }),
    {
        self.file_size_ino_fat32(ino)
    }

    fn flush_inode(&mut self, ino: u64) -> (r: Result<(), Error>)
        ensures
            final(self)@ == old(self)@,
            r is Ok,
            final(self).device.persisted() == final(self).device@,
    {
        self.flush_device();
        Ok(())
    }

    fn evict_inode(&mut self, ino: u64) -> (r: Result<(), Error>)
        ensures
            (final(self)@, r) == page_cache::evicted(old(self)@, ino),
    {
        self.evict_inode_fat32(ino)
    }
}

impl Fatfs {
    /// Writes every dirty page to the medium.
    fn flush_device(&mut self)
        requires
            old(self).wf(),
        ensures
            final(self).wf(),
            final(self)@ == old(self)@,
            final(self).device.persisted() == final(self).device@,
    {
        let mut none = CheckpointTracker::new(0);
        proof {
            self.device.lemma_wf();
        }
        self.device.flush(&mut none);
        proof {
            self.device.lemma_wf();
            assert(self.device.persisted() =~= self.device@);
        }
    }
}

} // verus!
