//! Writing files and directories.
use vstd::prelude::*;
use crate::bytes;
use crate::bytes::{push_slice, sub_vec, write_at, zero_vec};
use crate::error::Error;
use super::driver;
use super::driver::Fatfs;
use super::entry;
use super::entry::{build_lfn_entries, DirectoryEntry, EntryView};
use super::model;
use super::model::{Change, FatState, LongScan};
use super::structures::{ATTR_DIRECTORY, ATTR_LONG_NAME};
use super::traverse::EntryChange;

verus! {

// ---- Directory entries ------------------------------------------------------------------

fn join_slots(slots: &Vec<Vec<u8>>) -> (r: Vec<u8>)
    requires
        forall|i: int| 0 <= i < slots@.len() ==> (#[trigger] slots@[i])@.len() == 32,
    ensures
        r@ == model::joined(crate::block_page_cache::home(slots@)),
        r@.len() == 32 * slots@.len(),
{
    let mut out: Vec<u8> = Vec::new();
    let ghost all = crate::block_page_cache::home(slots@);
    let mut i: usize = 0;
    assert(all.take(0) =~= Seq::<Seq<u8>>::empty());
    while i < slots.len()
        invariant
            i <= slots.len(),
            all == crate::block_page_cache::home(slots@),
            forall|i: int| 0 <= i < slots@.len() ==> (#[trigger] slots@[i])@.len() == 32,
            out@ == model::joined(all.take(i as int)),
            out@.len() == 32 * i,
        decreases slots.len() - i,
    {
        push_slice(&mut out, slots[i].as_slice());
        assert(all.take(i + 1).drop_last() =~= all.take(i as int));
        assert(all.take(i + 1).last() == slots@[i as int]@);
        i = i + 1;
    }
    assert(all.take(slots@.len() as int) =~= all);
    out
}

/// The first `need` free slots in a row.
fn find_run(d: &[u8], need: usize) -> (r: Option<usize>)
    requires
        1 <= need <= 0x100_0000,
        d.len() <= 0x100_0000,
    ensures
        match r {
            Some(off) => model::first_run(d@, 0, need as int) == Some(off as int) && off + 32 * need
                <= d@.len(),
            None => model::first_run(d@, 0, need as int) is None,
        },
{
    let mut off: usize = 0;
    while d.len() - off >= 32
        invariant
            off <= d.len() <= 0x100_0000,
            1 <= need <= 0x100_0000,
            model::first_run(d@, 0, need as int) == model::first_run(d@, off as int, need as int),
        decreases d.len() - off,
    {
        let mut run: usize = 0;
        while run < need && (run + 1) * 32 <= d.len() - off && (d[off + run * 32] == 0 || d[off + run
            * 32] == 0xE5)
            invariant
                run <= need <= 0x100_0000,
                off <= d.len() <= 0x100_0000,
                off + run * 32 <= d.len(),
                forall|k: int|
                    0 <= k < run ==> (#[trigger] d@[off + 32 * k] == 0 || d@[off + 32 * k] == 0xE5),
            decreases need - run,
        {
            run = run + 1;
        }
        if run >= need {
            assert(model::has_run(d@, off as int, need as int));
            return Some(off);
        }
        proof {
            if model::has_run(d@, off as int, need as int) {
                let k = run as int;
                assert(d@[off + 32 * k] == 0 || d@[off + 32 * k] == 0xE5);
            }
        }
        off = off + 32;
    }
    None
}

impl Fatfs {
    /// Puts an entry, behind its long name if it has one, into a directory. Returns
    /// the cluster and the offset it lies at.
    pub fn append_dir_entry(
        &mut self,
        dir_cluster: u32,
        new_entry: &DirectoryEntry,
        long_name: Option<&str>,
    ) -> (r: Result<(u32, usize), Error>)
        requires
            old(self).wf(),
            new_entry.wf(),
            long_name is Some ==> entry::lfn_count(long_name->Some_0@) <= 0x1_0000,
        ensures
            final(self).wf(),
            driver::same_layout(final(self)@, old(self)@),
            final(self)@.inodes == old(self)@.inodes,
            ({
                let long = match long_name {
                    Some(s) => Some(s@),
                    None => None,
                };
                let (s, m) = model::append(
                    old(self)@,
                    dir_cluster,
                    model::slots_of(new_entry@, long),
                    model::chain_limit(old(self)@),
                );
                &&& final(self)@ == s
                &&& match r {
                    Ok(x) => m == Ok::<(u32, int), Error>((x.0, x.1 as int)),
                    Err(e) => m == Err::<(u32, int), Error>(e),
                }
            }),
            r matches Ok(x) ==> x.1 < 0x20_0000,
    {
        let ghost st = self@;
        let mut slots: Vec<u8> = match long_name {
            Some(s) => {
                let es = build_lfn_entries(s, new_entry.short_name_checksum());
                join_slots(&es)
            },
            None => Vec::new(),
        };
        let b = new_entry.encode();
        push_slice(&mut slots, b.as_slice());
        let ghost long: Option<Seq<char>> = match long_name {
            Some(s) => Some(s@),
            None => None,
        };
        proof {
            if long is None {
                assert(slots@ =~= entry::enc_entry(new_entry@));
            }
            assert(slots@ == model::slots_of(new_entry@, long));
        }
        let need: usize = slots.len() / 32;
        let limit: u64 = self.chain_limit();
        let mut fuel: u64 = limit;
        let mut cur: u32 = dir_cluster;
        while fuel > 0
            invariant
                self.wf(),
                self@ == st,
                st == old(self)@,
                limit == model::chain_limit(st),
                slots@ == model::slots_of(new_entry@, long),
                long == (match long_name {
                    Some(s) => Some(s@),
                    None => None,
                }),
                slots@.len() == need * 32,
                1 <= need <= 0x1_0001,
                model::append(st, dir_cluster, slots@, limit as int) == model::append(
                    st,
                    cur,
                    slots@,
                    fuel as int,
                ),
            decreases fuel,
        {
            let (lba, n) = self.dir_entry_region(cur);
            proof {
                driver::lemma_geometry(st, cur);
            }
            let mut d = match self.read_disk_sectors(lba, n) {
                Ok(d) => d,
                Err(e) => {
                    return Err(e);
                },
            };
            match find_run(d.as_slice(), need) {
                Some(off) => {
                    write_at(&mut d, off, slots.as_slice());
                    return match self.write_disk_sectors(lba, d.as_slice()) {
                        Ok(_) => Ok((cur, off + slots.len() - 32)),
                        Err(e) => Err(e),
                    };
                },
                None => {},
            }
            if self.is_fixed_root(cur) {
                return Err(Error::NoSpace);
            }
            let next: Option<u32> = match self.get_fat_entry(cur) {
                Ok(x) => x,
                Err(e) => {
                    return Err(e);
                },
            };
            match next {
                Some(x) => {
                    cur = x;
                },
                None => {
                    return self.grow_dir(cur, slots.as_slice());
                },
            }
            fuel = fuel - 1;
        }
        Err(Error::Corrupted)
    }

    /// Puts entries into a new cluster behind the last cluster of a directory.
    fn grow_dir(&mut self, last: u32, slots: &[u8]) -> (r: Result<(u32, usize), Error>)
        requires
            old(self).wf(),
            slots.len() >= 32,
        ensures
            final(self).wf(),
            driver::same_layout(final(self)@, old(self)@),
            final(self)@.inodes == old(self)@.inodes,
            ({
                let (s, m) = model::grow(old(self)@, last, slots@);
                &&& final(self)@ == s
                &&& match r {
                    Ok(x) => m == Ok::<(u32, int), Error>((x.0, x.1 as int)),
                    Err(e) => m == Err::<(u32, int), Error>(e),
                }
            }),
            r matches Ok(x) ==> x.1 < 0x20_0000,
    {
        reveal(model::grow);
        let bpc: usize = self.boot_info.sectors_per_cluster as usize * 512;
        if slots.len() > bpc {
            return Err(Error::NoSpace);
        }
        let n: u32 = match self.alloc_cluster() {
            Ok(c) => c,
            Err(e) => {
                return Err(e);
            },
        };
        match self.link_fat_entry(last, n) {
            Ok(_) => {},
            Err(e) => {
                return Err(e);
            },
        }
        let mut buf = zero_vec(bpc);
        write_at(&mut buf, 0, slots);
        let lba: u64 = self.cluster_to_lba(n);
        match self.write_disk_sectors(lba, buf.as_slice()) {
            Ok(_) => Ok((n, slots.len() - 32)),
            Err(e) => Err(e),
        }
    }

    /// Deletes the long name of the entry at an offset of a directory cluster: the
    /// long name entries right before it that carry its checksum.
    pub fn delete_long_name_sequence(
        &mut self,
        dir_head: u32,
        target_cluster: u32,
        target_offset: usize,
        checksum: u8,
    ) -> (r: Result<(), Error>)
        requires
            old(self).wf(),
        ensures
            final(self).wf(),
            driver::same_layout(final(self)@, old(self)@),
            final(self)@.info == old(self)@.info,
            final(self)@.inodes == old(self)@.inodes,
            (final(self)@, r) == model::delete_long(
                old(self)@,
                dir_head,
                target_cluster,
                target_offset as int,
                checksum,
                Seq::empty(),
                model::chain_limit(old(self)@),
            ),
    {
        let ghost st = self@;
        let limit: u64 = self.chain_limit();
        let mut fuel: u64 = limit;
        let mut cur: u32 = dir_head;
        let mut pending: Vec<(u32, usize, u8)> = Vec::new();
        assert(pending_view(pending@) =~= Seq::<(u32, int, u8)>::empty());
        while fuel > 0
            invariant
                self.wf(),
                self@ == st,
                st == old(self)@,
                limit == model::chain_limit(st),
                model::delete_long(
                    st,
                    dir_head,
                    target_cluster,
                    target_offset as int,
                    checksum,
                    Seq::empty(),
                    limit as int,
                ) == model::delete_long(
                    st,
                    cur,
                    target_cluster,
                    target_offset as int,
                    checksum,
                    pending_view(pending@),
                    fuel as int,
                ),
            decreases fuel,
        {
            let (lba, n) = self.dir_entry_region(cur);
            let d = match self.read_disk_sectors(lba, n) {
                Ok(d) => d,
                Err(e) => {
                    return Err(e);
                },
            };
            match scan_long(d.as_slice(), cur, target_cluster, target_offset, &mut pending) {
                Some(true) => {
                    return self.mark_pending(&pending, checksum);
                },
                Some(false) => {
                    return Ok(());
                },
                None => {},
            }
            if self.is_fixed_root(cur) {
                return Ok(());
            }
            let next: Option<u32> = match self.get_fat_entry(cur) {
                Ok(x) => x,
                Err(e) => {
                    return Err(e);
                },
            };
            match next {
                Some(x) => {
                    cur = x;
                },
                None => {
                    return Ok(());
                },
            }
            fuel = fuel - 1;
        }
        Err(Error::Corrupted)
    }

    fn mark_pending(&mut self, pending: &Vec<(u32, usize, u8)>, checksum: u8) -> (r: Result<
        (),
        Error,
    >)
        requires
            old(self).wf(),
        ensures
            final(self).wf(),
            driver::same_layout(final(self)@, old(self)@),
            final(self)@.info == old(self)@.info,
            final(self)@.inodes == old(self)@.inodes,
            (final(self)@, r) == model::mark_all(
                old(self)@,
                pending_view(pending@),
                pending@.len() as int,
                checksum,
            ),
    {
        let ghost p = pending_view(pending@);
        let mut n: usize = pending.len();
        while n > 0
            invariant
                n <= pending.len(),
                self.wf(),
                driver::same_layout(self@, old(self)@),
                self@.info == old(self)@.info,
                self@.inodes == old(self)@.inodes,
                p == pending_view(pending@),
                model::mark_all(old(self)@, p, pending@.len() as int, checksum)
                    == model::mark_all(self@, p, n as int, checksum),
            decreases n,
        {
            let e = pending[n - 1];
            if e.2 == checksum {
                match self.mark_entry_deleted(e.0, e.1) {
                    Ok(_) => {},
                    Err(x) => {
                        return Err(x);
                    },
                }
            }
            n = n - 1;
        }
        Ok(())
    }
}

/// Pending long name entries with their offsets as integers.
pub open spec fn pending_view(p: Seq<(u32, usize, u8)>) -> Seq<(u32, int, u8)> {
    p.map_values(|e: (u32, usize, u8)| (e.0, e.1 as int, e.2))
}

/// Looks for the entry through one cluster. `Some(true)`: found; `Some(false)`: the
/// directory ends; `None`: the cluster ends.
fn scan_long(
    d: &[u8],
    c: u32,
    to: u32,
    to_off: usize,
    pending: &mut Vec<(u32, usize, u8)>,
) -> (r: Option<bool>)
    ensures
        match model::long_scan(d@, 0, c, to, to_off as int, pending_view(old(pending)@)) {
            LongScan::Found(p) => r == Some(true) && pending_view(final(pending)@) == p,
            LongScan::Stop => r == Some(false),
            LongScan::Past(p) => r == None::<bool> && pending_view(final(pending)@) == p,
        },
{
    let ghost p0 = pending_view(pending@);
    let mut off: usize = 0;
    while d.len() - off >= 32
        invariant
            off <= d.len(),
            p0 == pending_view(old(pending)@),
            model::long_scan(d@, 0, c, to, to_off as int, p0) == model::long_scan(
                d@,
                off as int,
                c,
                to,
                to_off as int,
                pending_view(pending@),
            ),
        decreases d.len() - off,
    {
        let first: u8 = d[off];
        if first == 0 {
            return Some(false);
        }
        if first != 0xE5 && d[off + 11] == ATTR_LONG_NAME {
            let ghost before = pending_view(pending@);
            pending.push((c, off, d[off + 13]));
            assert(pending_view(pending@) =~= before.push((c, off as int, d@[off + 13])));
        } else if first != 0xE5 && c == to && off == to_off {
            return Some(true);
        } else {
            pending.clear();
            assert(pending_view(pending@) =~= Seq::<(u32, int, u8)>::empty());
        }
        off = off + 32;
    }
    None
}

// ---- File data ------------------------------------------------------------------------

/// `n` clusters taken and linked behind `last`. Gives the last of them.
pub open spec fn extended(st: FatState, last: u32, n: int) -> (FatState, Result<u32, Error>)
    decreases n,
{
    if n <= 0 {
        (st, Ok::<u32, Error>(last))
    } else {
        let (s1, r1) = model::take_cluster(st);
        match r1 {
            Err(e) => (s1, Err::<u32, Error>(e)),
            Ok(c) => {
                let (s2, r2) = model::link(s1, last, c);
                match r2 {
                    Err(e) => (s2, Err::<u32, Error>(e)),
                    Ok(_) => extended(s2, c, n - 1),
                }
            },
        }
    }
}

/// The chain followed `n` steps from `c`, and extended where it ends before. Gives
/// whether the cluster it ends at is a new one.
pub open spec fn reached(st: FatState, c: u32, n: int) -> (FatState, Result<bool, Error>)
    decreases n,
{
    if n <= 0 {
        (st, Ok::<bool, Error>(false))
    } else {
        match model::fat_next(st, c) {
            Err(e) => (st, Err::<bool, Error>(e)),
            Ok(Some(x)) => reached(st, x, n - 1),
            Ok(None) => {
                let (s1, r1) = model::take_cluster(st);
                match r1 {
                    Err(e) => (s1, Err::<bool, Error>(e)),
                    Ok(x) => {
                        let (s2, r2) = model::link(s1, c, x);
                        match r2 {
                            Err(e) => (s2, Err::<bool, Error>(e)),
                            Ok(_) => if n == 1 {
                                (s2, Ok::<bool, Error>(true))
                            } else {
                                reached(s2, x, n - 1)
                            },
                        }
                    },
                }
            },
        }
    }
}

/// Data written from `inner` bytes into cluster `c` on, along the chain, which is
/// extended where it ends. A new cluster is not read first.
pub open spec fn write_chain(
    st: FatState,
    c: u32,
    inner: int,
    buf: Seq<u8>,
    fresh: bool,
) -> (FatState, Result<(), Error>)
    decreases buf.len(),
{
    let space = model::bpc(st) - inner;
    let take = if space < buf.len() {
        space
    } else {
        buf.len() as int
    };
    let before = if fresh {
        Ok::<Seq<u8>, Error>(bytes::zeros(model::bpc(st)))
    } else {
        model::read(st, model::cluster_lba(st, c), model::spc(st))
    };
    match before {
        Err(e) => (st, Err::<(), Error>(e)),
        Ok(d) => {
            let (s1, r1) = model::write(
                st,
                model::cluster_lba(st, c),
                bytes::splice(d, inner, buf.take(take)),
            );
            if r1 is Err {
                (s1, r1)
            } else if take <= 0 || take >= buf.len() {
                (s1, Ok::<(), Error>(()))
            } else {
                match model::fat_next(s1, c) {
                    Err(e) => (s1, Err::<(), Error>(e)),
                    Ok(Some(x)) => write_chain(s1, x, 0, buf.skip(take), false),
                    Ok(None) => {
                        let (s2, r2) = model::take_cluster(s1);
                        match r2 {
                            Err(e) => (s2, Err::<(), Error>(e)),
                            Ok(x) => {
                                let (s3, r3) = model::link(s2, c, x);
                                if r3 is Err {
                                    (s3, r3)
                                } else {
                                    write_chain(s3, x, 0, buf.skip(take), true)
                                }
                            },
                        }
                    },
                }
            }
        },
    }
}

/// The chain of a file made to reach index `target`: its first cluster, and whether
/// the cluster at the index is new. A file without a chain gets one, and its directory
/// entry says so.
#[verifier::opaque]
pub open spec fn prepared(st: FatState, e: EntryView, pos: Option<(u32, int)>, target: int) -> (
    FatState,
    Result<(u32, bool), Error>,
) {
    let head = entry::first_cluster(e);
    if head < 2 {
        if pos is None {
            (st, Err::<(u32, bool), Error>(Error::InvalidArgument))
        } else {
            let (s1, r1) = model::take_cluster(st);
            match r1 {
                Err(x) => (s1, Err::<(u32, bool), Error>(x)),
                Ok(h) => {
                    let (s2, r2) = extended(s1, h, target);
                    match r2 {
                        Err(x) => (s2, Err::<(u32, bool), Error>(x)),
                        Ok(_) => {
                            let p = pos->Some_0;
                            let (s3, r3) = model::patch(s2, p.0, p.1, Change::Cluster(h));
                            match r3 {
                                Err(x) => (s3, Err::<(u32, bool), Error>(x)),
                                Ok(_) => (s3, Ok::<(u32, bool), Error>((h, true))),
                            }
                        },
                    }
                },
            }
        }
    } else {
        let (s1, r1) = reached(st, head, target);
        match r1 {
            Err(x) => (s1, Err::<(u32, bool), Error>(x)),
            Ok(new) => {
                let whole = (e.file_size + model::bpc(st) - 1) / model::bpc(st);
                (s1, Ok::<(u32, bool), Error>((head, new || target >= whole)))
            },
        }
    }
}

/// `buf` written to a file from `offset` on. Gives the first cluster of the file.
#[verifier::opaque]
pub open spec fn write_file(
    st: FatState,
    e: EntryView,
    pos: Option<(u32, int)>,
    offset: int,
    buf: Seq<u8>,
) -> (FatState, Result<u32, Error>) {
    if entry::has_attr(e, ATTR_DIRECTORY) {
        (st, Err::<u32, Error>(Error::NotAFile))
    } else if buf.len() == 0 {
        (st, Ok::<u32, Error>(entry::first_cluster(e)))
    } else {
        let target = offset / model::bpc(st);
        let (s1, r1) = prepared(st, e, pos, target);
        match r1 {
            Err(x) => (s1, Err::<u32, Error>(x)),
            Ok((head, fresh)) => match model::step(s1, head, target) {
                Err(x) => (s1, Err::<u32, Error>(x)),
                Ok(None) => (s1, Err::<u32, Error>(Error::Corrupted)),
                Ok(Some(c)) => {
                    let (s2, r2) = write_chain(s1, c, offset % model::bpc(st), buf, fresh);
                    match r2 {
                        Err(x) => (s2, Err::<u32, Error>(x)),
                        Ok(_) => (s2, Ok::<u32, Error>(head)),
                    }
                },
            },
        }
    }
}

/// What becomes of the entry that a write goes by: it gets the first cluster as soon as the
/// file has one, whatever happens to the data.
pub open spec fn entry_left(
    st: FatState,
    e: EntryView,
    pos: Option<(u32, int)>,
    offset: int,
    buf: Seq<u8>,
) -> EntryView {
    if entry::has_attr(e, ATTR_DIRECTORY) || buf.len() == 0 {
        e
    } else {
        match prepared(st, e, pos, offset / model::bpc(st)).1 {
            Err(_) => e,
            Ok((head, _)) => entry::with_cluster(e, head),
        }
    }
}

impl Fatfs {
    /// Takes clusters and links them behind `last`.
    pub(crate) fn extend_chain(&mut self, last: u32, n: u64) -> (r: Result<u32, Error>)
        requires
            old(self).wf(),
        ensures
            final(self).wf(),
            driver::same_layout(final(self)@, old(self)@),
            final(self)@.inodes == old(self)@.inodes,
            (final(self)@, r) == extended(old(self)@, last, n as int),
            final(self).staged_since(old(self)),
    {
        broadcast use crate::block_device::staging;

        let mut left: u64 = n;
        let mut cur: u32 = last;
        while left > 0
            invariant
                left <= n,
                self.wf(),
                driver::same_layout(self@, old(self)@),
                self@.inodes == old(self)@.inodes,
                extended(old(self)@, last, n as int) == extended(self@, cur, left as int),
                self.staged_since(old(self)),
            decreases left,
        {
            broadcast use crate::block_device::staging;

            let c: u32 = match self.alloc_cluster() {
                Ok(c) => c,
                Err(e) => {
                    return Err(e);
                },
            };
            match self.link_fat_entry(cur, c) {
                Ok(_) => {},
                Err(e) => {
                    return Err(e);
                },
            }
            cur = c;
            left = left - 1;
        }
        Ok(cur)
    }

    /// Follows a chain, extending it where it ends.
    fn reach(&mut self, head: u32, n: u64) -> (r: Result<bool, Error>)
        requires
            old(self).wf(),
        ensures
            final(self).wf(),
            driver::same_layout(final(self)@, old(self)@),
            final(self)@.inodes == old(self)@.inodes,
            (final(self)@, r) == reached(old(self)@, head, n as int),
    {
        let mut left: u64 = n;
        let mut cur: u32 = head;
        while left > 0
            invariant
                left <= n,
                self.wf(),
                driver::same_layout(self@, old(self)@),
                self@.inodes == old(self)@.inodes,
                reached(old(self)@, head, n as int) == reached(self@, cur, left as int),
            decreases left,
        {
            let next: Option<u32> = match self.get_fat_entry(cur) {
                Ok(x) => x,
                Err(e) => {
                    return Err(e);
                },
            };
            match next {
                Some(x) => {
                    cur = x;
                },
                None => {
                    let c: u32 = match self.alloc_cluster() {
                        Ok(c) => c,
                        Err(e) => {
                            return Err(e);
                        },
                    };
                    match self.link_fat_entry(cur, c) {
                        Ok(_) => {},
                        Err(e) => {
                            return Err(e);
                        },
                    }
                    if left == 1 {
                        return Ok(true);
                    }
                    cur = c;
                },
            }
            left = left - 1;
        }
        Ok(false)
    }

    fn write_along(&mut self, first: u32, inner: usize, buf: &[u8], fresh: bool) -> (r: Result<
        (),
        Error,
    >)
        requires
            old(self).wf(),
            inner < model::bpc(old(self)@),
            buf.len() > 0,
        ensures
            final(self).wf(),
            driver::same_layout(final(self)@, old(self)@),
            final(self)@.inodes == old(self)@.inodes,
            (final(self)@, r) == write_chain(old(self)@, first, inner as int, buf@, fresh),
    {
        let spc: u16 = self.boot_info.sectors_per_cluster as u16;
        let bpc: usize = spc as usize * 512;
        let mut c: u32 = first;
        let mut at: usize = inner;
        let mut done: usize = 0;
        let mut new: bool = fresh;
        assert(buf@.skip(0) =~= buf@);
        loop
            invariant
                done < buf.len(),
                at < bpc,
                bpc == model::bpc(self@),
                spc == model::spc(self@),
                1 <= spc <= 128,
                self.wf(),
                driver::same_layout(self@, old(self)@),
                self@.inodes == old(self)@.inodes,
                write_chain(old(self)@, first, inner as int, buf@, fresh) == write_chain(
                    self@,
                    c,
                    at as int,
                    buf@.skip(done as int),
                    new,
                ),
            decreases buf.len() - done,
        {
            let lba: u64 = self.cluster_to_lba(c);
            let mut scratch: Vec<u8> = if new {
                zero_vec(bpc)
            } else {
                match self.read_disk_sectors(lba, spc) {
                    Ok(d) => d,
                    Err(e) => {
                        return Err(e);
                    },
                }
            };
            let take: usize = if bpc - at < buf.len() - done {
                bpc - at
            } else {
                buf.len() - done
            };
            let piece = sub_vec(buf, done, done + take);
            proof {
                assert(piece@ =~= buf@.skip(done as int).take(take as int));
                assert(buf@.skip(done as int).skip(take as int) =~= buf@.skip(done + take));
            }
            write_at(&mut scratch, at, piece.as_slice());
            match self.write_disk_sectors(lba, scratch.as_slice()) {
                Ok(_) => {},
                Err(e) => {
                    return Err(e);
                },
            }
            done = done + take;
            if done == buf.len() {
                return Ok(());
            }
            at = 0;
            let next: Option<u32> = match self.get_fat_entry(c) {
                Ok(x) => x,
                Err(e) => {
                    return Err(e);
                },
            };
            match next {
                Some(x) => {
                    c = x;
                    new = false;
                },
                None => {
                    let x: u32 = match self.alloc_cluster() {
                        Ok(x) => x,
                        Err(e) => {
                            return Err(e);
                        },
                    };
                    match self.link_fat_entry(c, x) {
                        Ok(_) => {},
                        Err(e) => {
                            return Err(e);
                        },
                    }
                    c = x;
                    new = true;
                },
            }
        }
    }

    fn prepare(&mut self, e: &DirectoryEntry, pos: Option<(u32, usize)>, target: u64) -> (r: Result<
        (u32, bool),
        Error,
    >)
        requires
            old(self).wf(),
        ensures
            final(self).wf(),
            driver::same_layout(final(self)@, old(self)@),
            final(self)@.inodes == old(self)@.inodes,
            (final(self)@, r) == prepared(old(self)@, e@, pos_view(pos), target as int),
    {
        reveal(prepared);
        let head: u32 = e.first_cluster();
        let bpc: u64 = self.boot_info.sectors_per_cluster as u64 * 512;
        if head < 2 {
            let (c, off) = match pos {
                Some(p) => p,
                None => {
                    return Err(Error::InvalidArgument);
                },
            };
            let h: u32 = match self.alloc_cluster() {
                Ok(h) => h,
                Err(x) => {
                    return Err(x);
                },
            };
            match self.extend_chain(h, target) {
                Ok(_) => {},
                Err(x) => {
                    return Err(x);
                },
            }
            return match self.patch_dir_entry_at(c, off, EntryChange::Cluster(h)) {
                Ok(_) => Ok((h, true)),
                Err(x) => Err(x),
            };
        }
        match self.reach(head, target) {
            Ok(new) => {
                let whole: u64 = (e.file_size as u64 + bpc - 1) / bpc;
                Ok((head, new || target >= whole))
            },
            Err(x) => Err(x),
        }
    }

    /// Writes `buf` to a file from `offset` on. Returns the number of bytes written.
    /// `entry_pos` says where the entry lies; it is needed if the file has no cluster
    /// yet. The entry is kept up to date with its first cluster, also where the write fails
    /// once the file has one.
    pub fn write_file_offset(
        &mut self,
        e: &mut DirectoryEntry,
        entry_pos: Option<(u32, usize)>,
        offset: u64,
        buf: &[u8],
    ) -> (r: Result<usize, Error>)
        requires
            old(self).wf(),
            old(e).wf(),
        ensures
            final(self).wf(),
            final(e).wf(),
            driver::same_layout(final(self)@, old(self)@),
            final(self)@.inodes == old(self)@.inodes,
            final(e)@ == entry_left(
                old(self)@,
                old(e)@,
                pos_view(entry_pos),
                offset as int,
                buf@,
            ),
            ({
                let (s, m) = write_file(
                    old(self)@,
                    old(e)@,
                    pos_view(entry_pos),
                    offset as int,
                    buf@,
                );
                &&& final(self)@ == s
                &&& match r {
                    Ok(n) => m is Ok && n == buf@.len() && final(e)@ == (if buf@.len() == 0 {
                        old(e)@
                    } else {
                        entry::with_cluster(old(e)@, m->Ok_0)
                    }),
                    Err(x) => m == Err::<u32, Error>(x),
                }
            }),
    {
        reveal(write_file);
        if e.is_directory() {
            return Err(Error::NotAFile);
        }
        if buf.len() == 0 {
            return Ok(0);
        }
        let bpc: u64 = self.boot_info.sectors_per_cluster as u64 * 512;
        let target: u64 = offset / bpc;
        let (head, fresh) = match self.prepare(e, entry_pos, target) {
            Ok(x) => x,
            Err(x) => {
                return Err(x);
            },
        };
        let ghost e0 = e@;
        e.set_first_cluster(head);
        let mut c: u32 = head;
        let mut k: u64 = target;
        let ghost s1 = self@;
        while k > 0
            invariant
                self.wf(),
                self@ == s1,
                driver::same_layout(s1, old(self)@),
                s1.inodes == old(self)@.inodes,
                e@ == entry::with_cluster(e0, head),
                e.wf(),
                e0 == old(e)@,
                !entry::has_attr(e0, ATTR_DIRECTORY),
                buf@.len() > 0,
                target == offset as int / model::bpc(old(self)@),
                prepared(old(self)@, e0, pos_view(entry_pos), target as int) == (
                    s1,
                    Ok::<(u32, bool), Error>((head, fresh)),
                ),
                model::step(s1, head, target as int) == model::step(s1, c, k as int),
            decreases k,
        {
            reveal(write_file);
            let next: Option<u32> = match self.get_fat_entry(c) {
                Ok(x) => x,
                Err(x) => {
                    return Err(x);
                },
            };
            match next {
                Some(x) => {
                    c = x;
                },
                None => {
                    return Err(Error::Corrupted);
                },
            }
            k = k - 1;
        }
        let inner: usize = (offset % bpc) as usize;
        match self.write_along(c, inner, buf, fresh) {
            Ok(_) => {},
            Err(x) => {
                return Err(x);
            },
        }
        Ok(buf.len())
    }

    /// Writes `buf` to a file from its start on.
    pub fn write_file(
        &mut self,
        e: &mut DirectoryEntry,
        entry_pos: Option<(u32, usize)>,
        buf: &[u8],
    ) -> (r: Result<usize, Error>)
        requires
            old(self).wf(),
            old(e).wf(),
        ensures
            final(self).wf(),
            final(e).wf(),
            driver::same_layout(final(self)@, old(self)@),
            final(self)@ == write_file(
                old(self)@,
                old(e)@,
                pos_view(entry_pos),
                0,
                buf@,
            ).0,
            r is Ok <==> write_file(old(self)@, old(e)@, pos_view(entry_pos), 0, buf@).1 is Ok,
            final(e)@ == entry_left(old(self)@, old(e)@, pos_view(entry_pos), 0, buf@),
            r matches Ok(n) ==> n == buf@.len(),
            r matches Err(x) ==> write_file(
                old(self)@,
                old(e)@,
                pos_view(entry_pos),
                0,
                buf@,
            ).1 == Err::<u32, Error>(x),
    {
        self.write_file_offset(e, entry_pos, 0, buf)
    }

    /// Copies the whole first FAT over the second.
    pub fn mirror_primary_fat_to_backup(&mut self) -> (r: Result<(), Error>)
        requires
            old(self).wf(),
        ensures
            final(self).wf(),
            driver::same_layout(final(self)@, old(self)@),
            (final(self)@, r) == mirrored(
                old(self)@,
                0,
                model::fat_size(old(self)@),
            ),
    {
        let total: u64 = self.fat_size();
        let src: u64 = self.first_fat_lba();
        let dst: u64 = self.backup_fat_lba();
        let mut done: u64 = 0;
        while done < total
            invariant
                done <= total <= u32::MAX,
                total == model::fat_size(old(self)@),
                self.wf(),
                driver::same_layout(self@, old(self)@),
                src == model::fat_lba(self@),
                dst == model::backup_lba(self@),
                src < 0x80_0000_0001_0000,
                dst < 0x80_0001_0001_0000,
                mirrored(old(self)@, 0, total as int) == mirrored(
                    self@,
                    done as int,
                    total as int,
                ),
            decreases total - done,
        {
            let take: u64 = if total - done < 64 {
                total - done
            } else {
                64
            };
            let buf = match self.read_disk_sectors(src + done, take as u16) {
                Ok(b) => b,
                Err(e) => {
                    return Err(e);
                },
            };
            match self.write_disk_sectors(dst + done, buf.as_slice()) {
                Ok(_) => {},
                Err(e) => {
                    return Err(e);
                },
            }
            done = done + take;
        }
        Ok(())
    }
}

/// A position with its offset as an integer.
pub open spec fn pos_view(p: Option<(u32, usize)>) -> Option<(u32, int)> {
    match p {
        Some(x) => Some((x.0, x.1 as int)),
        None => None,
    }
}

/// The second FAT overwritten with the first from sector `done` on, 64 sectors at a
/// time.
pub open spec fn mirrored(st: FatState, done: int, total: int) -> (FatState, Result<(), Error>)
    decreases total - done,
{
    if done >= total {
        (st, Ok::<(), Error>(()))
    } else {
        let take = if total - done < 64 {
            total - done
        } else {
            64
        };
        match model::read(st, model::fat_lba(st) + done, take) {
            Err(e) => (st, Err::<(), Error>(e)),
            Ok(b) => {
                let (s, r) = model::write(st, model::backup_lba(st) + done, b);
                if r is Err {
                    (s, r)
                } else {
                    mirrored(s, done + take, total)
                }
            },
        }
    }
}

} // verus!
