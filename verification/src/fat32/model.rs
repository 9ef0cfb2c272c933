//! What the FAT driver does, as functions on the state of a volume.
use vstd::prelude::*;
use crate::block_device;
use crate::bytes;
use crate::error::Error;
use crate::text;
use crate::types;
use super::entry;
use super::entry::EntryView;
use super::structures;
use super::structures::{BootView, FatVariant, FsInfoView, ATTR_DIRECTORY, ATTR_LONG_NAME, ATTR_VOLUME_ID, CLUSTER_EOF, FSINFO_UNKNOWN};

verus! {

/// What the driver remembers of a file in use, keyed by the position of its
/// directory entry.
#[derive(Clone, Copy, PartialEq, Eq, Structural)]
pub struct FatInodeEntry {
    /// Cluster that contains the file's directory entry.
    pub dir_cluster: u32,
    /// Byte offset of the entry within that cluster.
    pub entry_offset: u32,
    /// First cluster of the file's data; 0 if it has none.
    pub first_cluster: u32,
    pub file_size: u32,
    /// Whether the name is gone; the data then lives until the last user is gone.
    pub orphan: bool,
}

/// The state of a mounted volume.
#[verifier::ext_equal]
pub struct FatState {
    /// The bytes of the device.
    pub disk: Seq<u8>,
    pub boot: BootView,
    pub variant: FatVariant,
    /// First sector of the volume.
    pub start: u64,
    /// Sectors of the volume.
    pub size: u64,
    pub info: Option<FsInfoView>,
    pub inodes: Map<u64, FatInodeEntry>,
}

/// What holds of every mounted volume.
pub open spec fn valid(st: FatState) -> bool {
    &&& structures::plausible(st.boot)
    &&& st.start < 0x80_0000_0000_0000
    &&& st.boot.volume_label.len() == 11
    &&& (st.info is Some ==> structures::sized_fsinfo(st.info->Some_0))
}

// ---- Geometry -------------------------------------------------------------------------

/// Sectors per FAT.
pub open spec fn fat_size(st: FatState) -> int {
    if st.variant is Fat32 {
        st.boot.fat_size_32 as int
    } else {
        st.boot.fat_size_16 as int
    }
}

/// First sector of the first FAT.
pub open spec fn fat_lba(st: FatState) -> int {
    st.start + st.boot.reserved_sector_count
}

/// First sector of the second FAT.
pub open spec fn backup_lba(st: FatState) -> int {
    fat_lba(st) + fat_size(st)
}

/// Sectors of the fixed root directory.
pub open spec fn root_len(st: FatState) -> int {
    if st.variant is Fat32 {
        0
    } else {
        structures::root_sectors(st.boot)
    }
}

/// First sector of the fixed root directory.
pub open spec fn root_lba(st: FatState) -> int {
    fat_lba(st) + st.boot.num_fats * st.boot.fat_size_16
}

/// First sector of the data area.
pub open spec fn data_lba(st: FatState) -> int {
    fat_lba(st) + st.boot.num_fats * fat_size(st) + root_len(st)
}

/// Sectors per cluster.
pub open spec fn spc(st: FatState) -> int {
    st.boot.sectors_per_cluster as int
}

/// Bytes per cluster.
pub open spec fn bpc(st: FatState) -> int {
    512 * spc(st)
}

/// First sector of a cluster; the start of the volume for a cluster that is not one.
pub open spec fn cluster_lba(st: FatState, c: u32) -> int {
    let l = data_lba(st) + (c - 2) * spc(st);
    if c < 2 || l >= st.start + st.size {
        st.start as int
    } else {
        l
    }
}

/// Whether `c` stands for the fixed root directory.
pub open spec fn fixed_root(st: FatState, c: u32) -> bool {
    c == 0 && !(st.variant is Fat32)
}

/// What stands for the root directory.
pub open spec fn root_cluster(st: FatState) -> u32 {
    if st.variant is Fat32 {
        st.boot.root_cluster
    } else {
        0
    }
}

/// The sectors that hold directory cluster `c`: the first, and how many.
pub open spec fn region(st: FatState, c: u32) -> (int, int) {
    if fixed_root(st, c) {
        (root_lba(st), root_len(st))
    } else {
        (cluster_lba(st, c), spc(st))
    }
}

// ---- Sectors --------------------------------------------------------------------------

/// `n` sectors from `lba` on.
pub open spec fn read(st: FatState, lba: int, n: int) -> Result<Seq<u8>, Error> {
    if n == 0 {
        Ok::<Seq<u8>, Error>(Seq::empty())
    } else if (lba + n) * 512 <= st.disk.len() {
        Ok::<Seq<u8>, Error>(st.disk.subrange(lba * 512, (lba + n) * 512))
    } else {
        Err::<Seq<u8>, Error>(Error::IoError)
    }
}

/// `data` written from sector `lba` on; what lies past the end of the device is lost.
pub open spec fn write(st: FatState, lba: int, data: Seq<u8>) -> (FatState, Result<(), Error>) {
    let keep = block_device::within(st.disk.len() as int, lba * 512, data.len() as int);
    (
        FatState { disk: bytes::splice(st.disk, lba * 512, data.take(keep)), ..st },
        if data.len() == 0 || lba * 512 + data.len() <= st.disk.len() {
            Ok::<(), Error>(())
        } else {
            Err::<(), Error>(Error::IoError)
        },
    )
}

// ---- The FAT --------------------------------------------------------------------------

/// Byte offset of the FAT entry of cluster `c`.
pub open spec fn fat_offset(v: FatVariant, c: u32) -> int {
    match v {
        FatVariant::Fat32 => c * 4,
        FatVariant::Fat16 => c * 2,
        FatVariant::Fat12 => c * 3 / 2,
    }
}

/// Bytes that a FAT entry touches.
pub open spec fn fat_width(v: FatVariant) -> int {
    if v is Fat32 {
        4
    } else {
        2
    }
}

/// Sectors that a FAT entry touches.
pub open spec fn fat_span(v: FatVariant, c: u32) -> int {
    if fat_offset(v, c) % 512 + fat_width(v) > 512 {
        2
    } else {
        1
    }
}

/// The sectors that hold the FAT entry of cluster `c`.
pub open spec fn fat_sectors(st: FatState, c: u32) -> Result<Seq<u8>, Error> {
    read(st, fat_lba(st) + fat_offset(st.variant, c) / 512, fat_span(st.variant, c))
}

/// The FAT entry of cluster `c` in its sectors.
pub open spec fn entry_in(v: FatVariant, c: u32, sec: Seq<u8>) -> u32 {
    let w = fat_offset(v, c) % 512;
    match v {
        FatVariant::Fat32 => bytes::le32(sec, w),
        FatVariant::Fat16 => bytes::le16(sec, w) as u32,
        FatVariant::Fat12 => if c % 2 == 0 {
            (bytes::le16(sec, w) % 4096) as u32
        } else {
            (bytes::le16(sec, w) / 16) as u32
        },
    }
}

/// The FAT entry of cluster `c`.
pub open spec fn fat_value(st: FatState, c: u32) -> Result<u32, Error> {
    match fat_sectors(st, c) {
        Ok(sec) => Ok::<u32, Error>(entry_in(st.variant, c, sec)),
        Err(e) => Err::<u32, Error>(e),
    }
}

/// The part of a FAT entry that counts.
pub open spec fn masked(v: FatVariant, x: u32) -> u32 {
    if v is Fat32 {
        (x % 0x1000_0000) as u32
    } else {
        x
    }
}

/// Least value that ends a chain.
pub open spec fn end_mark(v: FatVariant) -> u32 {
    match v {
        FatVariant::Fat32 => CLUSTER_EOF,
        FatVariant::Fat16 => 0xFFF8,
        FatVariant::Fat12 => 0xFF8,
    }
}

/// The value that is written to end a chain.
pub open spec fn eof_value(v: FatVariant) -> u32 {
    match v {
        FatVariant::Fat32 => CLUSTER_EOF,
        FatVariant::Fat16 => 0xFFFF,
        FatVariant::Fat12 => 0xFFF,
    }
}

/// The cluster that follows `c`, if the chain does not end there. A cluster marked
/// bad is an error.
#[verifier::opaque]
pub open spec fn fat_next(st: FatState, c: u32) -> Result<Option<u32>, Error> {
    match fat_value(st, c) {
        Err(e) => Err::<Option<u32>, Error>(e),
        Ok(raw) => {
            let val = masked(st.variant, raw);
            if val == 0 || val >= end_mark(st.variant) {
                Ok::<Option<u32>, Error>(None)
            } else if val == end_mark(st.variant) - 1 {
                Err::<Option<u32>, Error>(Error::IoError)
            } else {
                Ok::<Option<u32>, Error>(Some(raw))
            }
        },
    }
}

/// A cluster that follows another is never cluster 0.
pub proof fn next_is_not_free(st: FatState, c: u32)
    ensures
        fat_next(st, c) matches Ok(Some(n)) ==> n >= 1,
{
    reveal(fat_next);
}

/// The sectors of a FAT entry with the entry of cluster `c` set to `x`.
pub open spec fn entry_set(v: FatVariant, c: u32, sec: Seq<u8>, x: u32) -> Seq<u8> {
    let w = fat_offset(v, c) % 512;
    match v {
        FatVariant::Fat32 => bytes::splice(sec, w, bytes::bytes32((x % 0x1000_0000) as u32)),
        FatVariant::Fat16 => bytes::splice(sec, w, bytes::bytes16((x % 0x1_0000) as u16)),
        FatVariant::Fat12 => {
            let old = bytes::le16(sec, w);
            let new = if c % 2 == 0 {
                old / 4096 * 4096 + x % 4096
            } else {
                old % 16 + x % 4096 * 16
            };
            bytes::splice(sec, w, bytes::bytes16(new as u16))
        },
    }
}

/// Sectors written to every FAT from number `i` on, `idx` sectors from its start, up to the first
/// that cannot be written.
pub open spec fn write_copies(st: FatState, idx: int, sec: Seq<u8>, i: int) -> (
    FatState,
    Result<(), Error>,
)
    decreases st.boot.num_fats - i,
{
    if i >= st.boot.num_fats {
        (st, Ok::<(), Error>(()))
    } else {
        let (s, r) = write(st, fat_lba(st) + i * fat_size(st) + idx, sec);
        if r is Err {
            (s, r)
        } else {
            write_copies(FatState { disk: s.disk, ..st }, idx, sec, i + 1)
        }
    }
}

/// Sectors written to every FAT, `idx` sectors from its start.
pub open spec fn write_fat(st: FatState, idx: int, sec: Seq<u8>) -> (FatState, Result<(), Error>) {
    write_copies(st, idx, sec, 0)
}

/// The FAT entry of cluster `c` set to `x` in every FAT.
#[verifier::opaque]
pub open spec fn set_fat(st: FatState, c: u32, x: u32) -> (FatState, Result<(), Error>) {
    match fat_sectors(st, c) {
        Err(e) => (st, Err::<(), Error>(e)),
        Ok(sec) => write_fat(
            st,
            fat_offset(st.variant, c) / 512,
            entry_set(st.variant, c, sec, x),
        ),
    }
}

/// Cluster numbers that a search for a free cluster looks at.
pub open spec fn search_limit(st: FatState) -> int {
    let n = fat_size(st) * (match st.variant {
        FatVariant::Fat32 => 128int,
        FatVariant::Fat16 => 256,
        FatVariant::Fat12 => 341,
    });
    if n > 0xFFFF_FFFF {
        0xFFFF_FFFF
    } else {
        n
    }
}

/// The first free cluster from `c` on, taken and made the end of a chain. The search
/// ends at the first FAT entry that cannot be read or written.
pub open spec fn search(st: FatState, c: u32) -> (FatState, Option<u32>)
    decreases search_limit(st) - c,
{
    if c >= search_limit(st) {
        (st, None)
    } else {
        match fat_value(st, c) {
            Err(_) => (st, None),
            Ok(x) => if masked(st.variant, x) == 0 {
                let (s, r) = set_fat(st, c, eof_value(st.variant));
                (
                    s,
                    if r is Ok {
                        Some(c)
                    } else {
                        None
                    },
                )
            } else {
                search(st, (c + 1) as u32)
            },
        }
    }
}

/// Where a search for a free cluster starts.
pub open spec fn hint(st: FatState) -> u32 {
    if st.variant is Fat32 && st.info is Some && st.info->Some_0.next_free != FSINFO_UNKNOWN
        && st.info->Some_0.next_free >= 2 {
        st.info->Some_0.next_free
    } else {
        2
    }
}

/// The FSInfo after cluster `c` has been taken.
pub open spec fn info_taken(info: Option<FsInfoView>, c: u32) -> Option<FsInfoView> {
    match info {
        None => None,
        Some(f) => Some(
            FsInfoView {
                next_free: if c == u32::MAX {
                    2
                } else if c + 1 < 2 {
                    2
                } else {
                    (c + 1) as u32
                },
                free_count: if f.free_count != FSINFO_UNKNOWN && f.free_count > 0 {
                    (f.free_count - 1) as u32
                } else {
                    f.free_count
                },
                ..f
            },
        ),
    }
}

/// A free cluster taken: looked for from the hint on, then from the start.
#[verifier::opaque]
pub open spec fn take_cluster(st: FatState) -> (FatState, Result<u32, Error>) {
    let (s1, r1) = search(st, hint(st));
    let (s2, r2) = if r1 is Some {
        (s1, r1)
    } else {
        search(s1, 2)
    };
    match r2 {
        Some(c) => (FatState { info: info_taken(s2.info, c), ..s2 }, Ok::<u32, Error>(c)),
        None => (s2, Err::<u32, Error>(Error::NoSpace)),
    }
}

/// Cluster `to` made to follow `from`, and the end of the chain.
#[verifier::opaque]
pub open spec fn link(st: FatState, from: u32, to: u32) -> (FatState, Result<(), Error>) {
    let (s1, r1) = set_fat(st, from, to);
    if r1 is Err {
        (s1, r1)
    } else {
        set_fat(s1, to, eof_value(st.variant))
    }
}

/// Most clusters a chain that ends can have. It comes to no cluster twice. Behind the first
/// one, cluster numbers have twelve or sixteen bits; those of FAT32 have entries of four bytes
/// on the device.
pub open spec fn chain_limit(st: FatState) -> int {
    match st.variant {
        FatVariant::Fat32 => st.disk.len() as int / 4,
        FatVariant::Fat16 => 0x1_0001,
        FatVariant::Fat12 => 0x1001,
    }
}

/// Most clusters of a chain that are freed, which guards against chains that never end. On
/// FAT12 this takes entries to be wider than they are.
pub open spec fn free_limit(st: FatState) -> int {
    fat_size(st) * 512 / (if st.variant is Fat32 {
        4int
    } else {
        2
    })
}

/// A chain freed from `c` on, of which `freed` clusters have been freed before. A
/// chain with too many clusters is corrupt.
pub open spec fn free_from(st: FatState, c: u32, freed: int) -> (FatState, Result<int, Error>)
    decreases free_limit(st) - freed,
{
    if freed >= free_limit(st) {
        (st, Err::<int, Error>(Error::Corrupted))
    } else {
        match fat_next(st, c) {
            Err(e) => (st, Err::<int, Error>(e)),
            Ok(next) => {
                let (s, r) = set_fat(st, c, 0);
                match r {
                    Err(e) => (s, Err::<int, Error>(e)),
                    Ok(_) => match next {
                        None => (s, Ok::<int, Error>(freed + 1)),
                        Some(n) => if free_limit(s) == free_limit(st) {
                            free_from(s, n, freed + 1)
                        } else {
                            (s, Err::<int, Error>(Error::Corrupted))
                        },
                    },
                }
            },
        }
    }
}

/// The FSInfo after `freed` clusters of a chain that starts at `start` have been
/// freed.
pub open spec fn info_freed(info: Option<FsInfoView>, start: u32, freed: int) -> Option<
    FsInfoView,
> {
    match info {
        None => None,
        Some(f) => Some(
            FsInfoView {
                free_count: if f.free_count == FSINFO_UNKNOWN {
                    f.free_count
                } else if f.free_count + freed > u32::MAX {
                    u32::MAX
                } else {
                    (f.free_count + freed) as u32
                },
                next_free: if f.next_free == FSINFO_UNKNOWN || start < f.next_free {
                    start
                } else {
                    f.next_free
                },
                ..f
            },
        ),
    }
}

/// A chain freed.
#[verifier::opaque]
pub open spec fn free_chain(st: FatState, start: u32) -> (FatState, Result<int, Error>) {
    if start < 2 {
        (st, Ok::<int, Error>(0))
    } else {
        let (s, r) = free_from(st, start, 0);
        match r {
            Err(e) => (s, Err::<int, Error>(e)),
            Ok(n) => (
                FatState { info: info_freed(s.info, start, n), ..s },
                Ok::<int, Error>(n),
            ),
        }
    }
}

/// The clusters of the chain from `c` on, at most `fuel` of them.
pub open spec fn chain(st: FatState, c: u32, fuel: int) -> Result<Seq<u32>, Error>
    decreases fuel,
{
    if fuel <= 0 {
        Err::<Seq<u32>, Error>(Error::Corrupted)
    } else {
        match fat_next(st, c) {
            Err(e) => Err::<Seq<u32>, Error>(e),
            Ok(None) => Ok::<Seq<u32>, Error>(seq![c]),
            Ok(Some(n)) => match chain(st, n, fuel - 1) {
                Err(e) => Err::<Seq<u32>, Error>(e),
                Ok(rest) => Ok::<Seq<u32>, Error>(seq![c] + rest),
            },
        }
    }
}

/// The cluster `k` steps after `c`, if the chain is that long.
pub open spec fn step(st: FatState, c: u32, k: int) -> Result<Option<u32>, Error>
    decreases k,
{
    if k <= 0 {
        Ok::<Option<u32>, Error>(Some(c))
    } else {
        match fat_next(st, c) {
            Err(e) => Err::<Option<u32>, Error>(e),
            Ok(None) => Ok::<Option<u32>, Error>(None),
            Ok(Some(n)) => step(st, n, k - 1),
        }
    }
}

/// [`step`], but coming back to a cluster in `seen` is an error.
pub open spec fn step_guarded(st: FatState, c: u32, k: int, seen: Set<u64>) -> Result<
    Option<u32>,
    Error,
>
    decreases k,
{
    if k <= 0 {
        Ok::<Option<u32>, Error>(Some(c))
    } else if seen.contains(c as u64) {
        Err::<Option<u32>, Error>(Error::Corrupted)
    } else {
        match fat_next(st, c) {
            Err(e) => Err::<Option<u32>, Error>(e),
            Ok(None) => Ok::<Option<u32>, Error>(None),
            Ok(Some(n)) => step_guarded(st, n, k - 1, seen.insert(c as u64)),
        }
    }
}

// ---- Directories ----------------------------------------------------------------------

/// The bytes of directory cluster `c`.
pub open spec fn dir_data(st: FatState, c: u32) -> Result<Seq<u8>, Error> {
    read(st, region(st, c).0, region(st, c).1)
}

/// The live entries from `off` up to `end`, without labels and long names, and
/// whether the end of the directory was met.
pub open spec fn listed(d: Seq<u8>, off: int, end: int) -> (Seq<EntryView>, bool)
    decreases end - off + 32,
{
    if off >= end {
        (Seq::empty(), false)
    } else if d[off] == 0 {
        (Seq::empty(), true)
    } else {
        let e = entry::dec_entry(d, off);
        let rest = listed(d, off + 32, end);
        if d[off] == 0xE5 || entry::has_attr(e, ATTR_VOLUME_ID) {
            rest
        } else {
            (seq![e] + rest.0, rest.1)
        }
    }
}

/// The live entries of the directory that starts at cluster `c`.
pub open spec fn cluster_entries(st: FatState, c: u32, fuel: int) -> Result<Seq<EntryView>, Error>
    decreases fuel,
{
    if fuel <= 0 {
        Err::<Seq<EntryView>, Error>(Error::Corrupted)
    } else {
        match read(st, cluster_lba(st, c), spc(st)) {
            Err(e) => Err::<Seq<EntryView>, Error>(e),
            Ok(d) => {
                let (es, ended) = listed(d, 0, d.len() as int);
                if ended {
                    Ok::<Seq<EntryView>, Error>(es)
                } else {
                    match fat_next(st, c) {
                        Err(e) => Err::<Seq<EntryView>, Error>(e),
                        Ok(None) => Ok::<Seq<EntryView>, Error>(es),
                        Ok(Some(n)) => match cluster_entries(st, n, fuel - 1) {
                            Err(e) => Err::<Seq<EntryView>, Error>(e),
                            Ok(rest) => Ok::<Seq<EntryView>, Error>(es + rest),
                        },
                    }
                }
            },
        }
    }
}

/// The live entries of the fixed root directory from its sector `s` on. Sectors past the end of
/// the directory are not read.
#[verifier::opaque]
pub open spec fn root_from(st: FatState, s: int) -> Result<Seq<EntryView>, Error>
    decreases root_len(st) - s,
{
    if s >= root_len(st) {
        Ok::<Seq<EntryView>, Error>(Seq::empty())
    } else {
        match read(st, root_lba(st) + s, 1) {
            Err(e) => Err::<Seq<EntryView>, Error>(e),
            Ok(d) => {
                let (es, ended) = listed(d, 0, d.len() as int);
                if ended {
                    Ok::<Seq<EntryView>, Error>(es)
                } else {
                    match root_from(st, s + 1) {
                        Err(e) => Err::<Seq<EntryView>, Error>(e),
                        Ok(rest) => Ok::<Seq<EntryView>, Error>(es + rest),
                    }
                }
            },
        }
    }
}

/// The live entries of the fixed root directory.
pub open spec fn root_entries(st: FatState) -> Result<Seq<EntryView>, Error> {
    if st.variant is Fat32 {
        Err::<Seq<EntryView>, Error>(Error::IoError)
    } else if root_len(st) == 0 || root_lba(st) >= st.start + st.size {
        Err::<Seq<EntryView>, Error>(Error::Corrupted)
    } else {
        root_from(st, 0)
    }
}

/// The live entries of a directory.
pub open spec fn dir_entries(st: FatState, c: u32) -> Result<Seq<EntryView>, Error> {
    if fixed_root(st, c) {
        root_entries(st)
    } else {
        cluster_entries(st, c, chain_limit(st))
    }
}

/// Where a search through a directory cluster ended.
pub enum Scan {
    /// At the entry at this offset.
    Hit(int),
    /// At the end of the directory.
    Stop,
    /// At the end of the cluster.
    Past,
}

/// The first live entry from `off` on that is shown under `name`.
pub open spec fn scan(d: Seq<u8>, off: int, name: Seq<char>) -> Scan
    decreases d.len() - off,
{
    if off + 32 > d.len() {
        Scan::Past
    } else if d[off] == 0 {
        Scan::Stop
    } else if d[off] != 0xE5 && text::same_but_case(
        entry::entry_name(entry::dec_entry(d, off)),
        name,
    ) {
        Scan::Hit(off)
    } else {
        scan(d, off + 32, name)
    }
}

/// The entry shown under `name` in the directory from cluster `c` on, with the
/// cluster and the offset it lies at.
pub open spec fn find_slot(st: FatState, c: u32, name: Seq<char>, fuel: int) -> Result<
    Option<(EntryView, u32, int)>,
    Error,
>
    decreases fuel,
{
    if fuel <= 0 {
        Err::<Option<(EntryView, u32, int)>, Error>(Error::Corrupted)
    } else {
        match dir_data(st, c) {
            Err(e) => Err::<Option<(EntryView, u32, int)>, Error>(e),
            Ok(d) => match scan(d, 0, name) {
                Scan::Hit(off) => Ok::<Option<(EntryView, u32, int)>, Error>(
                    Some((entry::dec_entry(d, off), c, off)),
                ),
                Scan::Stop => Ok::<Option<(EntryView, u32, int)>, Error>(None),
                Scan::Past => if fixed_root(st, c) {
                    Ok::<Option<(EntryView, u32, int)>, Error>(None)
                } else {
                    match fat_next(st, c) {
                        Err(e) => Err::<Option<(EntryView, u32, int)>, Error>(e),
                        Ok(None) => Ok::<Option<(EntryView, u32, int)>, Error>(None),
                        Ok(Some(n)) => find_slot(st, n, name, fuel - 1),
                    }
                },
            },
        }
    }
}

/// The first directory among entries that is shown under `name`.
pub open spec fn subdir(es: Seq<EntryView>, name: Seq<char>) -> Option<u32>
    decreases es.len(),
{
    if es.len() == 0 {
        None
    } else if entry::has_attr(es[0], ATTR_DIRECTORY) && text::same_but_case(
        entry::entry_name(es[0]),
        name,
    ) {
        Some(entry::first_cluster(es[0]))
    } else {
        subdir(es.skip(1), name)
    }
}

/// The directory that the components from `i` up to `n` lead to from `c`.
pub open spec fn walk(st: FatState, cs: Seq<Seq<char>>, i: int, n: int, c: u32) -> Result<
    Option<u32>,
    Error,
>
    decreases n - i,
{
    if i >= n {
        Ok::<Option<u32>, Error>(Some(c))
    } else {
        match dir_entries(st, c) {
            Err(e) => Err::<Option<u32>, Error>(e),
            Ok(es) => match subdir(es, cs[i]) {
                None => Ok::<Option<u32>, Error>(None),
                Some(d) => walk(st, cs, i + 1, n, d),
            },
        }
    }
}

/// The entry that a path leads to, with its position; the root has none.
#[verifier::opaque]
pub open spec fn find(st: FatState, cs: Seq<Seq<char>>) -> Result<
    Option<(EntryView, u32, int)>,
    Error,
> {
    if cs.len() == 0 {
        Ok::<Option<(EntryView, u32, int)>, Error>(None)
    } else {
        match walk(st, cs, 0, cs.len() - 1, root_cluster(st)) {
            Err(e) => Err::<Option<(EntryView, u32, int)>, Error>(e),
            Ok(None) => Ok::<Option<(EntryView, u32, int)>, Error>(None),
            Ok(Some(c)) => find_slot(st, c, cs.last(), chain_limit(st)),
        }
    }
}

/// The directory that holds the last component of a path.
pub open spec fn parent(st: FatState, cs: Seq<Seq<char>>) -> Result<u32, Error> {
    if cs.len() == 0 {
        Err::<u32, Error>(Error::NotADir)
    } else {
        match walk(st, cs, 0, cs.len() - 1, root_cluster(st)) {
            Err(e) => Err::<u32, Error>(e),
            Ok(None) => Err::<u32, Error>(Error::FileNotFound),
            Ok(Some(c)) => Ok::<u32, Error>(c),
        }
    }
}

/// How a directory entry is changed.
pub enum Change {
    /// The first cluster is set.
    Cluster(u32),
    /// The size is set.
    Size(u32),
    /// The size is set after a write at a time.
    Grown(u32, types::FileTime),
    /// The file is left without data.
    Emptied,
    /// The short name is set.
    Name(Seq<u8>),
}

/// The entry after a change.
pub open spec fn changed(e: EntryView, ch: Change) -> EntryView {
    match ch {
        Change::Cluster(c) => entry::with_cluster(e, c),
        Change::Size(n) => EntryView { file_size: n, ..e },
        Change::Grown(n, t) => EntryView {
            file_size: n,
            attributes: e.attributes | 0x20,
            write_date: t.date,
            write_time: t.time,
            ..e
        },
        Change::Emptied => EntryView {
            file_size: 0,
            first_cluster_high: 0,
            first_cluster_low: 0,
            ..e
        },
        Change::Name(n) => EntryView { name: n, ..e },
    }
}

/// A change of the entry at offset `off` of directory cluster `c`.
#[verifier::opaque]
pub open spec fn patch(st: FatState, c: u32, off: int, ch: Change) -> (FatState, Result<(), Error>) {
    match dir_data(st, c) {
        Err(e) => (st, Err::<(), Error>(e)),
        Ok(d) => if off + 32 > d.len() {
            (st, Err::<(), Error>(Error::Corrupted))
        } else {
            write(
                st,
                region(st, c).0,
                bytes::splice(d, off, entry::enc_entry(changed(entry::dec_entry(d, off), ch))),
            )
        },
    }
}

/// The entry at offset `off` of directory cluster `c` marked deleted.
#[verifier::opaque]
pub open spec fn mark_deleted(st: FatState, c: u32, off: int) -> (FatState, Result<(), Error>) {
    match dir_data(st, c) {
        Err(e) => (st, Err::<(), Error>(e)),
        Ok(d) => if off + 32 > d.len() {
            (st, Err::<(), Error>(Error::Corrupted))
        } else {
            write(st, region(st, c).0, d.update(off, 0xE5u8))
        },
    }
}

/// Whether `need` slots from `off` on are free.
pub open spec fn has_run(d: Seq<u8>, off: int, need: int) -> bool {
    off + 32 * need <= d.len() && forall|k: int|
        0 <= k < need ==> (#[trigger] d[off + 32 * k] == 0 || d[off + 32 * k] == 0xE5)
}

/// The first `need` free slots in a row from `off` on.
pub open spec fn first_run(d: Seq<u8>, off: int, need: int) -> Option<int>
    decreases d.len() - off,
{
    if off + 32 > d.len() {
        None
    } else if has_run(d, off, need) {
        Some(off)
    } else {
        first_run(d, off + 32, need)
    }
}

/// Entries put into the first free slots of the directory from cluster `c` on, which
/// grows by a cluster if it has none. Gives the position of the last of them.
pub open spec fn append(st: FatState, c: u32, slots: Seq<u8>, fuel: int) -> (
    FatState,
    Result<(u32, int), Error>,
)
    decreases fuel,
{
    let need = slots.len() / 32;
    if fuel <= 0 {
        (st, Err::<(u32, int), Error>(Error::Corrupted))
    } else {
        match dir_data(st, c) {
            Err(e) => (st, Err::<(u32, int), Error>(e)),
            Ok(d) => match first_run(d, 0, need as int) {
                Some(off) => {
                    let (s, r) = write(st, region(st, c).0, bytes::splice(d, off, slots));
                    match r {
                        Err(e) => (s, Err::<(u32, int), Error>(e)),
                        Ok(_) => (s, Ok::<(u32, int), Error>((c, off + slots.len() - 32))),
                    }
                },
                None => if fixed_root(st, c) {
                    (st, Err::<(u32, int), Error>(Error::NoSpace))
                } else {
                    match fat_next(st, c) {
                        Err(e) => (st, Err::<(u32, int), Error>(e)),
                        Ok(Some(n)) => append(st, n, slots, fuel - 1),
                        Ok(None) => grow(st, c, slots),
                    }
                },
            },
        }
    }
}

/// A new cluster with entries put behind the last cluster `c` of a directory.
#[verifier::opaque]
pub open spec fn grow(st: FatState, c: u32, slots: Seq<u8>) -> (
    FatState,
    Result<(u32, int), Error>,
) {
    if slots.len() > bpc(st) {
        (st, Err::<(u32, int), Error>(Error::NoSpace))
    } else {
        let (s1, r1) = take_cluster(st);
        match r1 {
            Err(e) => (s1, Err::<(u32, int), Error>(e)),
            Ok(n) => {
                let (s2, r2) = link(s1, c, n);
                match r2 {
                    Err(e) => (s2, Err::<(u32, int), Error>(e)),
                    Ok(_) => {
                        let (s3, r3) = write(
                            s2,
                            cluster_lba(s2, n),
                            bytes::splice(bytes::zeros(bpc(st)), 0, slots),
                        );
                        match r3 {
                            Err(e) => (s3, Err::<(u32, int), Error>(e)),
                            Ok(_) => (s3, Ok::<(u32, int), Error>((n, slots.len() - 32))),
                        }
                    },
                }
            },
        }
    }
}

/// The slots of an entry with its long name, if it has one.
pub open spec fn slots_of(e: EntryView, long: Option<Seq<char>>) -> Seq<u8> {
    match long {
        None => entry::enc_entry(e),
        Some(n) => joined(entry::lfn_entries(n, entry::name_checksum(e.name))) + entry::enc_entry(e),
    }
}

/// Byte strings one after the other.
pub open spec fn joined(bs: Seq<Seq<u8>>) -> Seq<u8>
    decreases bs.len(),
{
    if bs.len() == 0 {
        Seq::empty()
    } else {
        joined(bs.drop_last()) + bs.last()
    }
}

// ---- Long names -----------------------------------------------------------------------

/// Where a search for the long name of an entry ended, with the long name entries
/// that stand right before that place: cluster, offset and checksum of each.
pub enum LongScan {
    /// At the entry.
    Found(Seq<(u32, int, u8)>),
    /// At the end of the directory.
    Stop,
    /// At the end of the cluster.
    Past(Seq<(u32, int, u8)>),
}

/// The search for the entry at `to_off` of cluster `to` through the data of cluster
/// `c`.
pub open spec fn long_scan(
    d: Seq<u8>,
    off: int,
    c: u32,
    to: u32,
    to_off: int,
    pending: Seq<(u32, int, u8)>,
) -> LongScan
    decreases d.len() - off,
{
    if off + 32 > d.len() {
        LongScan::Past(pending)
    } else if d[off] == 0 {
        LongScan::Stop
    } else if d[off] == 0xE5 {
        long_scan(d, off + 32, c, to, to_off, Seq::empty())
    } else if d[off + 11] == ATTR_LONG_NAME {
        long_scan(d, off + 32, c, to, to_off, pending.push((c, off, d[off + 13])))
    } else if c == to && off == to_off {
        LongScan::Found(pending)
    } else {
        long_scan(d, off + 32, c, to, to_off, Seq::empty())
    }
}

/// The first `n` pending entries with checksum `sum` marked deleted, last first.
pub open spec fn mark_all(st: FatState, p: Seq<(u32, int, u8)>, n: int, sum: u8) -> (
    FatState,
    Result<(), Error>,
)
    decreases n,
{
    if n <= 0 {
        (st, Ok::<(), Error>(()))
    } else if p[n - 1].2 == sum {
        let (s, r) = mark_deleted(st, p[n - 1].0, p[n - 1].1);
        if r is Err {
            (s, r)
        } else {
            mark_all(s, p, n - 1, sum)
        }
    } else {
        mark_all(st, p, n - 1, sum)
    }
}

/// The long name of an entry deleted: the long name entries right before it that
/// carry its checksum.
pub open spec fn delete_long(
    st: FatState,
    c: u32,
    to: u32,
    to_off: int,
    sum: u8,
    pending: Seq<(u32, int, u8)>,
    fuel: int,
) -> (FatState, Result<(), Error>)
    decreases fuel,
{
    if fuel <= 0 {
        (st, Err::<(), Error>(Error::Corrupted))
    } else {
        match dir_data(st, c) {
            Err(e) => (st, Err::<(), Error>(e)),
            Ok(d) => match long_scan(d, 0, c, to, to_off, pending) {
                LongScan::Stop => (st, Ok::<(), Error>(())),
                LongScan::Found(p) => mark_all(st, p, p.len() as int, sum),
                LongScan::Past(p) => if fixed_root(st, c) {
                    (st, Ok::<(), Error>(()))
                } else {
                    match fat_next(st, c) {
                        Err(e) => (st, Err::<(), Error>(e)),
                        Ok(None) => (st, Ok::<(), Error>(())),
                        Ok(Some(n)) => delete_long(st, n, to, to_off, sum, p, fuel - 1),
                    }
                },
            },
        }
    }
}

} // verus!
