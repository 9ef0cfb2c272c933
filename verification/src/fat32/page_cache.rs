//! File data by pages, for files in use on FAT32.
use vstd::prelude::*;
use crate::bytes;
use crate::bytes::{push_slice, sub_vec, write_at, zero_vec};
use crate::error::Error;
use crate::page_cache;
use crate::page_cache::{BulkSteps, DirtyPage, PageCacheOps, PageSteps};
use crate::sorted::SortedSet;
use crate::types;
use crate::types::FileTime;
use super::driver;
use super::driver::Fatfs;
use super::model;
use super::model::{Change, FatInodeEntry, FatState};
use super::read;
use super::traverse::EntryChange;

verus! {

broadcast use crate::block_device::staging;

/// The chain from `c` on followed `k` steps, extended where it ends; coming back to a
/// cluster in `seen` is an error. Gives the cluster it ends at.
pub open spec fn ensured_from(st: FatState, c: u32, k: int, seen: Set<u64>) -> (
    FatState,
    Result<u32, Error>,
)
    decreases k,
{
    if k <= 0 {
        (st, Ok::<u32, Error>(c))
    } else if seen.contains(c as u64) {
        (st, Err::<u32, Error>(Error::Corrupted))
    } else {
        match model::fat_next(st, c) {
            Err(e) => (st, Err::<u32, Error>(e)),
            Ok(Some(n)) => ensured_from(st, n, k - 1, seen.insert(c as u64)),
            Ok(None) => crate::fat32::write::extended(st, c, k),
        }
    }
}

/// The chain of a file made to reach index `target`: its first cluster, and the
/// cluster at the index.
#[verifier::opaque]
pub open spec fn ensured(st: FatState, head: Option<u32>, target: int) -> (
    FatState,
    Result<(u32, u32), Error>,
) {
    if head is Some && head->Some_0 >= 2 {
        let (s, r) = ensured_from(st, head->Some_0, target, Set::empty());
        match r {
            Err(e) => (s, Err::<(u32, u32), Error>(e)),
            Ok(c) => (s, Ok::<(u32, u32), Error>((head->Some_0, c))),
        }
    } else {
        let (s1, r1) = model::take_cluster(st);
        match r1 {
            Err(e) => (s1, Err::<(u32, u32), Error>(e)),
            Ok(h) => {
                let (s2, r2) = crate::fat32::write::extended(s1, h, target);
                match r2 {
                    Err(e) => (s2, Err::<(u32, u32), Error>(e)),
                    Ok(c) => (s2, Ok::<(u32, u32), Error>((h, c))),
                }
            },
        }
    }
}

/// Bytes that a step of `need` bytes from file position `pos` takes: no more than the
/// rest of the cluster.
pub open spec fn chunk(st: FatState, pos: int, need: int) -> int {
    let space = model::bpc(st) - pos % model::bpc(st);
    if space < need {
        space
    } else {
        need
    }
}

/// The sectors of a cluster that `take` bytes from `off` on lie in: the first, and how
/// many.
pub open spec fn sectors_of(off: int, take: int) -> (int, int) {
    (off / 512, (off + take - 1) / 512 - off / 512 + 1)
}

/// `need` bytes of a file from position `pos` on.
pub open spec fn gather(st: FatState, head: u32, pos: int, need: int) -> Result<Seq<u8>, Error>
    decreases need,
{
    let take = chunk(st, pos, need);
    let off = pos % model::bpc(st);
    if need <= 0 || take <= 0 {
        Ok::<Seq<u8>, Error>(Seq::empty())
    } else {
        match read::at_index(st, head, pos / model::bpc(st)) {
            Err(e) => Err::<Seq<u8>, Error>(e),
            Ok(None) => Err::<Seq<u8>, Error>(Error::Corrupted),
            Ok(Some(c)) => {
                let (first, n) = sectors_of(off, take);
                match model::read(st, model::cluster_lba(st, c) + first, n) {
                    Err(e) => Err::<Seq<u8>, Error>(e),
                    Ok(d) => match gather(st, head, pos + take, need - take) {
                        Err(e) => Err::<Seq<u8>, Error>(e),
                        Ok(rest) => Ok::<Seq<u8>, Error>(
                            d.subrange(off % 512, off % 512 + take) + rest,
                        ),
                    },
                }
            },
        }
    }
}

/// Bytes of page `idx` that lie within a file of `size` bytes.
pub open spec fn valid_bytes(size: int, idx: int) -> int {
    if idx * 4096 >= size {
        0
    } else if size - idx * 4096 < 4096 {
        size - idx * 4096
    } else {
        4096
    }
}

/// Page `idx` of the file with number `ino`, and how many of its bytes count; the
/// others are zero.
#[verifier::opaque]
pub open spec fn filled(st: FatState, ino: u64, idx: int) -> Result<(Seq<u8>, int), Error> {
    if !st.inodes.contains_key(ino) {
        Err::<(Seq<u8>, int), Error>(Error::FileNotFound)
    } else {
        let e = st.inodes[ino];
        let n = valid_bytes(e.file_size as int, idx);
        if n == 0 || e.first_cluster < 2 {
            Ok::<(Seq<u8>, int), Error>((bytes::zeros(4096), n))
        } else {
            match gather(st, e.first_cluster, idx * 4096, n) {
                Err(x) => Err::<(Seq<u8>, int), Error>(x),
                Ok(d) => Ok::<(Seq<u8>, int), Error>((d + bytes::zeros(4096 - n), n)),
            }
        }
    }
}

/// The first cluster of the file with number `ino` recorded.
pub open spec fn with_head(st: FatState, ino: u64, head: u32) -> FatState {
    if st.inodes.contains_key(ino) {
        FatState {
            inodes: st.inodes.insert(
                ino,
                FatInodeEntry { first_cluster: head, ..st.inodes[ino] },
            ),
            ..st
        }
    } else {
        st
    }
}

/// The bytes of `buf` written to the file `e` with number `ino` from position `pos`
/// on. Sectors are written whole, filled up with zeros.
pub open spec fn scattered(
    st: FatState,
    ino: u64,
    e: FatInodeEntry,
    head: Option<u32>,
    pos: int,
    buf: Seq<u8>,
) -> (FatState, Result<(), Error>)
    decreases buf.len(),
{
    let take = chunk(st, pos, buf.len() as int);
    let off = pos % model::bpc(st);
    if buf.len() == 0 || take <= 0 {
        (st, Ok::<(), Error>(()))
    } else {
        let (s1, r1) = ensured(st, head, pos / model::bpc(st));
        match r1 {
            Err(x) => (s1, Err::<(), Error>(x)),
            Ok((h, c)) => {
                let (s2, r2) = if head is None && !e.orphan {
                    model::patch(s1, e.dir_cluster, e.entry_offset as int, Change::Cluster(h))
                } else {
                    (s1, Ok::<(), Error>(()))
                };
                let s3 = if head is None {
                    with_head(s2, ino, h)
                } else {
                    s2
                };
                if r2 is Err {
                    (s2, r2)
                } else {
                    let (first, n) = sectors_of(off, take);
                    let (s4, r4) = model::write(
                        s3,
                        model::cluster_lba(s3, c) + first,
                        bytes::splice(bytes::zeros(n * 512), off % 512, buf.take(take)),
                    );
                    if r4 is Err {
                        (s4, r4)
                    } else {
                        scattered(s4, ino, e, Some(h), pos + take, buf.skip(take))
                    }
                }
            },
        }
    }
}

/// Page `idx` of the file with number `ino` written, as far as it lies within the file.
#[verifier::opaque]
pub open spec fn flushed(st: FatState, ino: u64, idx: int, buf: Seq<u8>) -> (
    FatState,
    Result<(), Error>,
) {
    if !st.inodes.contains_key(ino) {
        (st, Err::<(), Error>(Error::FileNotFound))
    } else {
        let e = st.inodes[ino];
        let n = valid_bytes(e.file_size as int, idx);
        scattered(
            st,
            ino,
            e,
            if e.first_cluster >= 2 {
                Some(e.first_cluster)
            } else {
                None
            },
            idx * 4096,
            buf.take(n),
        )
    }
}

/// The state from which [`scattered`] writes its first piece of data, and where and what it
/// writes, if it comes to that.
pub open spec fn first_piece(
    st: FatState,
    ino: u64,
    e: FatInodeEntry,
    head: Option<u32>,
    pos: int,
    buf: Seq<u8>,
) -> Option<(FatState, u32, int, Seq<u8>)> {
    let take = chunk(st, pos, buf.len() as int);
    let off = pos % model::bpc(st);
    let (s1, r1) = ensured(st, head, pos / model::bpc(st));
    match r1 {
        Err(_) => None,
        Ok((h, c)) => {
            let (s2, r2) = if head is None && !e.orphan {
                model::patch(s1, e.dir_cluster, e.entry_offset as int, Change::Cluster(h))
            } else {
                (s1, Ok::<(), Error>(()))
            };
            let s3 = if head is None {
                with_head(s2, ino, h)
            } else {
                s2
            };
            let (first, n) = sectors_of(off, take);
            if r2 is Err {
                None
            } else {
                Some(
                    (
                        s3,
                        h,
                        model::cluster_lba(s3, c) + first,
                        bytes::splice(bytes::zeros(n * 512), off % 512, buf.take(take)),
                    ),
                )
            }
        },
    }
}

/// Whether changes through the cache lead from `pre` to `mid`, which is `st`, and then writing
/// `data` around it to `x`.
pub open spec fn piece_home(
    pre: Fatfs,
    mid: Fatfs,
    x: Fatfs,
    st: FatState,
    lba: int,
    data: Seq<u8>,
) -> bool {
    &&& mid@ == st
    &&& mid.staged_since(&pre)
    &&& x.data_written(&mid, lba, data)
}

/// What [`scattered`] does to the medium when it succeeds: for each piece of data, the FAT and
/// the directory are changed through the cache, and then the data is written around it.
pub open spec fn scattered_home(
    pre: Fatfs,
    ino: u64,
    e: FatInodeEntry,
    head: Option<u32>,
    pos: int,
    buf: Seq<u8>,
    post: Fatfs,
) -> bool
    decreases buf.len(),
{
    let take = chunk(pre@, pos, buf.len() as int);
    if buf.len() == 0 || take <= 0 {
        post.untouched(&pre)
    } else {
        match first_piece(pre@, ino, e, head, pos, buf) {
            None => false,
            Some(t) => exists|mid: Fatfs, x: Fatfs| #[trigger]
                piece_home(pre, mid, x, t.0, t.2, t.3) && scattered_home(
                    x,
                    ino,
                    e,
                    Some(t.1),
                    pos + take,
                    buf.skip(take),
                    post,
                ),
        }
    }
}

proof fn lemma_piece(
    pre: Fatfs,
    mid: Fatfs,
    x: Fatfs,
    ino: u64,
    e: FatInodeEntry,
    head: Option<u32>,
    h: u32,
    pos: int,
    buf: Seq<u8>,
    lba: int,
    data: Seq<u8>,
)
    requires
        buf.len() > 0,
        chunk(pre@, pos, buf.len() as int) > 0,
        first_piece(pre@, ino, e, head, pos, buf) == Some((mid@, h, lba, data)),
        mid.staged_since(&pre),
        x.data_written(&mid, lba, data),
    ensures
        forall|z: Fatfs| #[trigger]
            scattered_home(
                x,
                ino,
                e,
                Some(h),
                pos + chunk(pre@, pos, buf.len() as int),
                buf.skip(chunk(pre@, pos, buf.len() as int)),
                z,
            ) ==> scattered_home(pre, ino, e, head, pos, buf, z),
{
    let take = chunk(pre@, pos, buf.len() as int);
    assert forall|z: Fatfs| #[trigger]
        scattered_home(x, ino, e, Some(h), pos + take, buf.skip(take), z) implies scattered_home(
        pre,
        ino,
        e,
        head,
        pos,
        buf,
        z,
    ) by {
        assert(piece_home(pre, mid, x, mid@, lba, data));
        let t = first_piece(pre@, ino, e, head, pos, buf)->Some_0;
        assert(piece_home(pre, mid, x, t.0, t.2, t.3));
    }
}

/// What [`flushed`] does to the medium when it succeeds.
pub open spec fn flushed_home(pre: Fatfs, ino: u64, idx: int, buf: Seq<u8>, post: Fatfs) -> bool {
    let e = pre@.inodes[ino];
    scattered_home(
        pre,
        ino,
        e,
        if e.first_cluster >= 2 {
            Some(e.first_cluster)
        } else {
            None
        },
        idx * 4096,
        buf.take(valid_bytes(e.file_size as int, idx)),
        post,
    )
}

/// The size of the file with number `ino` recorded, if it has grown.
#[verifier::opaque]
pub open spec fn resized(st: FatState, ino: u64, size: int, now: u64) -> (
    FatState,
    Result<(), Error>,
) {
    if size > u32::MAX {
        (st, Err::<(), Error>(Error::IoError))
    } else if !st.inodes.contains_key(ino) {
        (st, Err::<(), Error>(Error::FileNotFound))
    } else {
        let e = st.inodes[ino];
        if size <= e.file_size {
            (st, Ok::<(), Error>(()))
        } else {
            let (s, r) = if e.orphan {
                (st, Ok::<(), Error>(()))
            } else {
                model::patch(
                    st,
                    e.dir_cluster,
                    e.entry_offset as int,
                    Change::Grown(size as u32, types::file_time_of(now)),
                )
            };
            if r is Err {
                (s, r)
            } else {
                (
                    FatState {
                        inodes: s.inodes.insert(
                            ino,
                            FatInodeEntry { file_size: size as u32, ..s.inodes[ino] },
                        ),
                        ..s
                    },
                    Ok::<(), Error>(()),
                )
            }
        }
    }
}

/// The file with number `ino` forgotten; its data goes too if its name is gone.
#[verifier::opaque]
pub open spec fn evicted(st: FatState, ino: u64) -> (FatState, Result<(), Error>) {
    if !st.inodes.contains_key(ino) {
        (st, Ok::<(), Error>(()))
    } else {
        let e = st.inodes[ino];
        let s = FatState { inodes: st.inodes.remove(ino), ..st };
        if !e.orphan || e.first_cluster < 2 {
            (s, Ok::<(), Error>(()))
        } else {
            let (t, r) = model::free_chain(s, e.first_cluster);
            (
                t,
                match r {
                    Ok(_) => Ok::<(), Error>(()),
                    Err(x) => Err::<(), Error>(x),
                },
            )
        }
    }
}

impl Fatfs {
    /// What is remembered of the file with number `ino`.
    pub fn lookup_inode_entry(&self, ino: u64) -> (r: Result<FatInodeEntry, Error>)
        ensures
            match r {
                Ok(e) => self@.inodes.contains_key(ino) && e == self@.inodes[ino],
                Err(x) => !self@.inodes.contains_key(ino) && x == Error::FileNotFound,
            },
    {
        match self.inode_table.get(ino) {
            Some(e) => Ok(*e),
            None => Err(Error::FileNotFound),
        }
    }

    /// Makes the chain of a file reach index `target`. Returns its first cluster and
    /// the cluster at the index.
    pub fn ensure_chain_to(&mut self, head: Option<u32>, target: u64) -> (r: Result<
        (u32, u32),
        Error,
    >)
        requires
            old(self).wf(),
        ensures
            final(self).wf(),
            driver::same_layout(final(self)@, old(self)@),
            final(self)@.inodes == old(self)@.inodes,
            (final(self)@, r) == ensured(old(self)@, head, target as int),
            final(self).staged_since(old(self)),
    {
        reveal(ensured);
        let h: u32 = match head {
            Some(h) => h,
            None => 0,
        };
        if h < 2 {
            let h: u32 = match self.alloc_cluster() {
                Ok(h) => h,
                Err(e) => {
                    return Err(e);
                },
            };
            return match self.extend_chain(h, target) {
                Ok(c) => Ok((h, c)),
                Err(e) => Err(e),
            };
        }
        let mut seen = SortedSet::new();
        let mut c: u32 = h;
        let mut k: u64 = target;
        while k > 0
            invariant
                self.wf(),
                self@ == old(self)@,
                self.untouched(old(self)),
                head is Some && head->Some_0 == h && h >= 2,
                ensured_from(self@, h, target as int, Set::empty()) == ensured_from(
                    self@,
                    c,
                    k as int,
                    seen@,
                ),
            decreases k,
        {
            reveal(ensured);
            if !seen.insert(c as u64) {
                return Err(Error::Corrupted);
            }
            let next: Option<u32> = match self.get_fat_entry(c) {
                Ok(x) => x,
                Err(e) => {
                    return Err(e);
                },
            };
            match next {
                Some(n) => {
                    c = n;
                },
                None => {
                    return match self.extend_chain(c, k) {
                        Ok(last) => Ok((h, last)),
                        Err(e) => Err(e),
                    };
                },
            }
            k = k - 1;
        }
        Ok((h, c))
    }

    fn set_head(&mut self, ino: u64, head: u32)
        requires
            old(self).wf(),
        ensures
            final(self).wf(),
            final(self)@ == with_head(old(self)@, ino, head),
            final(self).untouched(old(self)),
            driver::same_layout(final(self)@, old(self)@),
    {
        let cur: Option<FatInodeEntry> = match self.inode_table.get(ino) {
            Some(e) => Some(*e),
            None => None,
        };
        match cur {
            Some(e) => {
                self.inode_table.insert(ino, FatInodeEntry { first_cluster: head, ..e });
            },
            None => {},
        }
        assert(self@ =~= with_head(old(self)@, ino, head));
    }

    /// Forgets the file with number `ino`; frees its data if its name is gone.
    pub fn evict_inode_fat32(&mut self, ino: u64) -> (r: Result<(), Error>)
        requires
            old(self).wf(),
        ensures
            final(self).wf(),
            driver::same_layout(final(self)@, old(self)@),
            (final(self)@, r) == evicted(old(self)@, ino),
    {
        reveal(evicted);
        let e = match self.inode_table.remove(ino) {
            Some(e) => e,
            None => {
                assert(self@ =~= old(self)@);
                return Ok(());
            },
        };
        assert(self@ =~= (FatState { inodes: old(self)@.inodes.remove(ino), ..old(self)@ }));
        if !e.orphan || e.first_cluster < 2 {
            return Ok(());
        }
        match self.free_cluster_chain(e.first_cluster) {
            Ok(_) => Ok(()),
            Err(x) => Err(x),
        }
    }

    /// The size of the file with number `ino`.
    pub fn file_size_ino_fat32(&self, ino: u64) -> (r: Result<u64, Error>)
        ensures
            r == (if self@.inodes.contains_key(ino) {
                Ok::<u64, Error>(self@.inodes[ino].file_size as u64)
            } else {
                Err::<u64, Error>(Error::FileNotFound)
            }),
    {
        match self.lookup_inode_entry(ino) {
            Ok(e) => Ok(e.file_size as u64),
            Err(x) => Err(x),
        }
    }
}

impl PageSteps for Fatfs {
    open spec fn ready(&self) -> bool {
        self.wf()
    }

    open spec fn flush_step(
        pre: &Self,
        ino: u64,
        index: u64,
        data: Seq<u8>,
        post: &Self,
        r: Result<(), Error>,
    ) -> bool {
        &&& (post@, r) == flushed(pre@, ino, index as int, data)
        &&& r is Ok ==> flushed_home(*pre, ino, index as int, data, *post)
    }

    open spec fn size_step(
        pre: &Self,
        ino: u64,
        size: u64,
        now: u64,
        post: &Self,
        r: Result<(), Error>,
    ) -> bool {
        (post@, r) == resized(pre@, ino, size as int, now)
    }
}

impl BulkSteps for Fatfs {
    open spec fn bulk_step(
        pre: &Self,
        ino: u64,
        index: Seq<u64>,
        data: Seq<Seq<u8>>,
        size: Option<u64>,
        now: u64,
        post: &Self,
        r: Result<(), Error>,
    ) -> bool {
        page_cache::one_by_one(pre, ino, index, data, size, now, post, r)
    }
}

impl PageCacheOps for Fatfs {
    /// Flushes several pages, one by one.
    fn flush_pages_bulk(
        &mut self,
        ino: u64,
        pages: Vec<DirtyPage>,
        size: Option<u64>,
        now: u64,
    ) -> (r: Result<(), Error>) {
        self.flush_one_by_one(ino, pages, size, now)
    }

    /// Reads page `page_index` of the file with number `ino`. Returns the page and how
    /// many of its bytes count.
    fn fill_page(&mut self, ino: u64, page_index: u64) -> (r: Result<(Vec<u8>, usize), Error>)
        ensures
            final(self)@ == old(self)@,
            match r {
                Ok(x) => filled(old(self)@, ino, page_index as int) == Ok::<(Seq<u8>, int), Error>(
                    (x.0@, x.1 as int),
                ),
                Err(e) => filled(old(self)@, ino, page_index as int) == Err::<
                    (Seq<u8>, int),
                    Error,
                >(e),
            },
    {
        reveal(filled);
        let ghost st = self@;
        let e = match self.lookup_inode_entry(ino) {
            Ok(e) => e,
            Err(x) => {
                return Err(x);
            },
        };
        if page_index >= 0x10_0000 || page_index * 4096 >= e.file_size as u64 {
            return Ok((zero_vec(4096), 0));
        }
        let start: u64 = page_index * 4096;
        let valid: u64 = if e.file_size as u64 - start < 4096 {
            e.file_size as u64 - start
        } else {
            4096
        };
        if e.first_cluster < 2 {
            return Ok((zero_vec(4096), valid as usize));
        }
        let bpc: u64 = self.boot_info.sectors_per_cluster as u64 * 512;
        let mut out: Vec<u8> = Vec::new();
        let mut done: u64 = 0;
        let ghost whole = gather(st, e.first_cluster, start as int, valid as int);
        assert(read::append_to(out@, whole) == whole) by {
            if whole is Ok {
                assert(out@ + whole->Ok_0 =~= whole->Ok_0);
            }
        }
        while done < valid
            invariant
                done <= valid <= 4096,
                start < 0x1_0000_0000,
                self.wf(),
                self@ == st,
                st == old(self)@,
                bpc == model::bpc(st),
                512 <= bpc <= 65536,
                out@.len() == done,
                st.inodes.contains_key(ino),
                e == st.inodes[ino],
                e.first_cluster >= 2,
                start == page_index * 4096,
                valid == valid_bytes(e.file_size as int, page_index as int),
                valid > 0,
                whole == gather(st, e.first_cluster, start as int, valid as int),
                whole == read::append_to(
                    out@,
                    gather(st, e.first_cluster, start + done, valid - done),
                ),
            decreases valid - done,
        {
            reveal(filled);
            let pos: u64 = start + done;
            let off: u64 = pos % bpc;
            let take: u64 = if bpc - off < valid - done {
                bpc - off
            } else {
                valid - done
            };
            proof {
                assert(0 <= pos % bpc < bpc);
                assert(take == chunk(st, pos as int, valid - done));
            }
            let c: u32 = match self.cluster_at_index(e.first_cluster, (pos / bpc) as usize) {
                Ok(Some(c)) => c,
                Ok(None) => {
                    return Err(Error::Corrupted);
                },
                Err(x) => {
                    return Err(x);
                },
            };
            let first: u64 = off / 512;
            let n: u64 = (off + take - 1) / 512 - first + 1;
            let lba: u64 = self.cluster_to_lba(c) + first;
            let d = match self.read_disk_sectors(lba, n as u16) {
                Ok(d) => d,
                Err(x) => {
                    return Err(x);
                },
            };
            let src: usize = (off % 512) as usize;
            assert(src + take <= n * 512);
            let piece = sub_vec(d.as_slice(), src, src + take as usize);
            proof {
                let rest = gather(st, e.first_cluster, start + done + take, valid - done - take);
                if rest is Ok {
                    assert(out@ + (piece@ + rest->Ok_0) =~= (out@ + piece@) + rest->Ok_0);
                }
            }
            push_slice(&mut out, piece.as_slice());
            done = done + take;
        }
        assert(out@ + Seq::<u8>::empty() =~= out@);
        let pad = zero_vec((4096 - valid) as usize);
        push_slice(&mut out, pad.as_slice());
        Ok((out, valid as usize))
    }

    /// Writes page `page_index` of the file with number `ino`, as far as it lies within
    /// the file. The data goes straight to the medium.
    #[verifier::spinoff_prover]
    #[verifier::rlimit(80)]
    fn flush_page(&mut self, ino: u64, page_index: u64, buf: &[u8]) -> (r: Result<(), Error>)
        ensures
            driver::same_layout(final(self)@, old(self)@),
            (final(self)@, r) == flushed(old(self)@, ino, page_index as int, buf@),
    {
        reveal(flushed);
        let e = match self.lookup_inode_entry(ino) {
            Ok(e) => e,
            Err(x) => {
                return Err(x);
            },
        };
        if page_index >= 0x10_0000 || page_index * 4096 >= e.file_size as u64 {
            assert(buf@.take(0).len() == 0);
            return Ok(());
        }
        let start: u64 = page_index * 4096;
        let valid: u64 = if e.file_size as u64 - start < 4096 {
            e.file_size as u64 - start
        } else {
            4096
        };
        let bpc: u64 = self.boot_info.sectors_per_cluster as u64 * 512;
        let mut head: Option<u32> = if e.first_cluster >= 2 {
            Some(e.first_cluster)
        } else {
            None
        };
        let ghost target = scattered(self@, ino, e, head, start as int, buf@.take(valid as int));
        let ghost h0 = head;
        let ghost all = buf@.take(valid as int);
        let mut done: u64 = 0;
        assert(buf@.take(valid as int).skip(0) =~= buf@.take(valid as int));
        while done < valid
            invariant
                done <= valid <= 4096,
                buf@.len() == 4096,
                start < 0x1_0000_0000,
                self.wf(),
                all == buf@.take(valid as int),
                forall|z: Fatfs| #[trigger]
                    scattered_home(*self, ino, e, head, start + done, all.skip(done as int), z)
                        ==> scattered_home(*old(self), ino, e, h0, start as int, all, z),
                driver::same_layout(self@, old(self)@),
                bpc == model::bpc(self@),
                512 <= bpc <= 65536,
                target == flushed(old(self)@, ino, page_index as int, buf@),
                target == scattered(
                    self@,
                    ino,
                    e,
                    head,
                    start + done,
                    buf@.take(valid as int).skip(done as int),
                ),
            decreases valid - done,
        {
            let ghost top = *self;
            let ghost had = head;
            let pos: u64 = start + done;
            let off: u64 = pos % bpc;
            let take: u64 = if bpc - off < valid - done {
                bpc - off
            } else {
                valid - done
            };
            proof {
                assert(take == chunk(self@, pos as int, valid - done));
            }
            let (h, c) = match self.ensure_chain_to(head, pos / bpc) {
                Ok(x) => x,
                Err(x) => {
                    return Err(x);
                },
            };
            if head.is_none() {
                if !e.orphan {
                    match self.patch_dir_entry_at(
                        e.dir_cluster,
                        e.entry_offset as usize,
                        EntryChange::Cluster(h),
                    ) {
                        Ok(_) => {},
                        Err(x) => {
                            return Err(x);
                        },
                    }
                }
                self.set_head(ino, h);
            }
            let first: u64 = off / 512;
            let n: u64 = (off + take - 1) / 512 - first + 1;
            let lba: u64 = self.cluster_to_lba(c) + first;
            let mut scratch = zero_vec((n * 512) as usize);
            let piece = sub_vec(buf, done as usize, (done + take) as usize);
            proof {
                let rest = buf@.take(valid as int).skip(done as int);
                assert(piece@ =~= rest.take(take as int));
                assert(rest.skip(take as int) =~= buf@.take(valid as int).skip(done + take));
            }
            write_at(&mut scratch, (off % 512) as usize, piece.as_slice());
            let ghost mid = *self;
            assert(mid.staged_since(&top));
            match self.write_data_sectors(lba, scratch.as_slice()) {
                Ok(_) => {
                    proof {
                        let rest = all.skip(done as int);
                        assert(first_piece(top@, ino, e, had, pos as int, rest) == Some(
                            (mid@, h, lba as int, scratch@),
                        ));
                        assert(self.data_written(&mid, lba as int, scratch@));
                        assert(rest.skip(take as int) =~= all.skip(done + take));
                        lemma_piece(
                            top,
                            mid,
                            *self,
                            ino,
                            e,
                            had,
                            h,
                            pos as int,
                            rest,
                            lba as int,
                            scratch@,
                        );
                    }
                },
                Err(x) => {
                    return Err(x);
                },
            }
            head = Some(h);
            done = done + take;
        }
        assert(scattered_home(*self, ino, e, head, start + done, all.skip(done as int), *self));
        Ok(())
    }

    /// Records that the file with number `ino` has grown to `new_size` bytes. Does
    /// nothing if it is that long already.
    fn update_size(&mut self, ino: u64, new_size: u64, now: u64) -> (r: Result<(), Error>)
        ensures
            driver::same_layout(final(self)@, old(self)@),
            (final(self)@, r) == resized(old(self)@, ino, new_size as int, now),
    {
        reveal(resized);
        if new_size > u32::MAX as u64 {
            return Err(Error::IoError);
        }
        let e = match self.lookup_inode_entry(ino) {
            Ok(e) => e,
            Err(x) => {
                return Err(x);
            },
        };
        if new_size <= e.file_size as u64 {
            return Ok(());
        }
        if !e.orphan {
            let t = FileTime::from_unix_secs(now);
            match self.patch_dir_entry_at(
                e.dir_cluster,
                e.entry_offset as usize,
                EntryChange::Grown(new_size as u32, t),
            ) {
                Ok(_) => {},
                Err(x) => {
                    return Err(x);
                },
            }
        }
        let ghost mid = self@;
        self.inode_table.insert(ino, FatInodeEntry { file_size: new_size as u32, ..e });
        assert(self@ =~= (FatState {
            inodes: mid.inodes.insert(
                ino,
                FatInodeEntry { file_size: new_size as u32, ..mid.inodes[ino] },
            ),
            ..mid
        }));
        Ok(())
    }
}

} // verus!
