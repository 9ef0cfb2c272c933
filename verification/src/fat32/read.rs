//! Reading files.
use vstd::prelude::*;
use crate::types;
use crate::bytes::{push_slice, sub_vec};
use crate::error::Error;
use crate::sorted::SortedSet;
use super::driver;
use super::driver::Fatfs;
use super::entry;
use super::entry::{DirectoryEntry, EntryView};
use super::model;
use super::model::FatState;
use super::structures::ATTR_DIRECTORY;

verus! {

/// Most sectors read in one go.
pub const MAX_BATCH_SECTORS: u16 = 4096;

/// Runs of consecutive clusters: the first of each, and how many.
pub open spec fn ranges(cs: Seq<u32>) -> Seq<(u32, u32)>
    decreases cs.len(),
{
    if cs.len() == 0 {
        Seq::empty()
    } else {
        let p = ranges(cs.drop_last());
        if p.len() > 0 && p.last().0 + p.last().1 == cs.last() {
            p.update(p.len() - 1, (p.last().0, (p.last().1 + 1) as u32))
        } else {
            p.push((cs.last(), 1u32))
        }
    }
}

/// Whether runs lie within the cluster numbers.
pub open spec fn in_numbers(rs: Seq<(u32, u32)>) -> bool {
    forall|i: int|
        0 <= i < rs.len() ==> (#[trigger] rs[i]).1 >= 1 && rs[i].0 >= 1 && rs[i].0 + rs[i].1
            <= 0x1_0000_0000
}

/// A chain with clusters put in front of it.
pub open spec fn after(done: Seq<u32>, r: Result<Seq<u32>, Error>) -> Result<Seq<u32>, Error> {
    match r {
        Ok(rest) => Ok::<Seq<u32>, Error>(done + rest),
        Err(e) => Err::<Seq<u32>, Error>(e),
    }
}

/// The runs of the chain that starts at `c`.
#[verifier::opaque]
pub open spec fn chain_ranges(st: FatState, c: u32) -> Result<Seq<(u32, u32)>, Error> {
    if c < 2 {
        Ok::<Seq<(u32, u32)>, Error>(Seq::empty())
    } else {
        match model::chain(st, c, model::chain_limit(st)) {
            Ok(cs) => Ok::<Seq<(u32, u32)>, Error>(ranges(cs)),
            Err(e) => Err::<Seq<(u32, u32)>, Error>(e),
        }
    }
}

/// The bytes of `n` consecutive clusters, read in batches.
pub open spec fn read_run(st: FatState, c: int, n: int) -> Result<Seq<u8>, Error>
    decreases n,
{
    let most = 4096int / model::spc(st);
    let k = if n < most {
        n
    } else {
        most
    };
    if n <= 0 || k <= 0 {
        Ok::<Seq<u8>, Error>(Seq::empty())
    } else {
        match model::read(st, model::cluster_lba(st, c as u32), k * model::spc(st)) {
            Err(e) => Err::<Seq<u8>, Error>(e),
            Ok(d) => match read_run(st, c + k, n - k) {
                Err(e) => Err::<Seq<u8>, Error>(e),
                Ok(rest) => Ok::<Seq<u8>, Error>(d + rest),
            },
        }
    }
}

/// The first `remaining` bytes of the runs from `i` on; the runs must hold that many.
pub open spec fn read_all(st: FatState, rs: Seq<(u32, u32)>, i: int, remaining: int) -> Result<
    Seq<u8>,
    Error,
>
    decreases rs.len() - i,
{
    if remaining <= 0 {
        Ok::<Seq<u8>, Error>(Seq::empty())
    } else if i >= rs.len() {
        Err::<Seq<u8>, Error>(Error::Corrupted)
    } else {
        match read_run(st, rs[i].0 as int, rs[i].1 as int) {
            Err(e) => Err::<Seq<u8>, Error>(e),
            Ok(d) => {
                let take = if remaining < d.len() {
                    remaining
                } else {
                    d.len() as int
                };
                match read_all(st, rs, i + 1, remaining - take) {
                    Err(e) => Err::<Seq<u8>, Error>(e),
                    Ok(rest) => Ok::<Seq<u8>, Error>(d.take(take) + rest),
                }
            },
        }
    }
}

/// The contents of a file.
#[verifier::opaque]
pub open spec fn file_data(st: FatState, e: EntryView) -> Result<Seq<u8>, Error> {
    if entry::has_attr(e, ATTR_DIRECTORY) {
        Err::<Seq<u8>, Error>(Error::NotAFile)
    } else if e.file_size == 0 {
        Ok::<Seq<u8>, Error>(Seq::empty())
    } else if entry::first_cluster(e) < 2 {
        Err::<Seq<u8>, Error>(Error::Corrupted)
    } else {
        match chain_ranges(st, entry::first_cluster(e)) {
            Err(x) => Err::<Seq<u8>, Error>(x),
            Ok(rs) => read_all(st, rs, 0, e.file_size as int),
        }
    }
}

/// Up to `remaining` bytes of the runs from `i` on, of which `skip` bytes are passed
/// over and no more than `left` clusters are read.
pub open spec fn read_some(
    st: FatState,
    rs: Seq<(u32, u32)>,
    i: int,
    left: int,
    remaining: int,
    skip: int,
) -> Result<Seq<u8>, Error>
    decreases rs.len() - i,
{
    if remaining <= 0 || left <= 0 || i >= rs.len() {
        Ok::<Seq<u8>, Error>(Seq::empty())
    } else {
        let k = if rs[i].1 < left {
            rs[i].1 as int
        } else {
            left
        };
        match read_run(st, rs[i].0 as int, k) {
            Err(e) => Err::<Seq<u8>, Error>(e),
            Ok(d) => {
                let avail = if d.len() < skip {
                    0
                } else {
                    d.len() - skip
                };
                let take = if remaining < avail {
                    remaining
                } else {
                    avail
                };
                match read_some(st, rs, i + 1, left - k, remaining - take, 0) {
                    Err(e) => Err::<Seq<u8>, Error>(e),
                    Ok(rest) => Ok::<Seq<u8>, Error>(
                        (if take > 0 {
                            d.subrange(skip, skip + take)
                        } else {
                            Seq::empty()
                        }) + rest,
                    ),
                }
            },
        }
    }
}

/// `count` bytes of a file from `offset` on, or what there is of them. A chain that
/// ends before the offset gives nothing.
#[verifier::opaque]
pub open spec fn file_slice(st: FatState, e: EntryView, offset: int, count: int) -> Result<
    Seq<u8>,
    Error,
> {
    if entry::has_attr(e, ATTR_DIRECTORY) {
        Err::<Seq<u8>, Error>(Error::NotAFile)
    } else if offset >= e.file_size || count <= 0 {
        Ok::<Seq<u8>, Error>(Seq::empty())
    } else {
        let n = if count < e.file_size - offset {
            count
        } else {
            e.file_size - offset
        };
        let idx = offset / model::bpc(st);
        match model::step(st, entry::first_cluster(e), idx) {
            Err(x) => Err::<Seq<u8>, Error>(x),
            Ok(None) => Ok::<Seq<u8>, Error>(Seq::empty()),
            Ok(Some(c)) => match chain_ranges(st, c) {
                Err(x) => Err::<Seq<u8>, Error>(x),
                Ok(rs) => read_some(
                    st,
                    rs,
                    0,
                    (offset + n - 1) / model::bpc(st) - idx + 1,
                    n,
                    offset % model::bpc(st),
                ),
            },
        }
    }
}

proof fn lemma_batch(s: int)
    requires
        s == 1 || s == 2 || s == 4 || s == 8 || s == 16 || s == 32 || s == 64 || s == 128,
    ensures
        1 <= 4096int / s <= 4096,
        (4096int / s) * s == 4096,
{
    if s == 1 {
    } else if s == 2 {
    } else if s == 4 {
    } else if s == 8 {
    } else if s == 16 {
    } else if s == 32 {
    } else if s == 64 {
    } else {
    }
}

proof fn lemma_run_len(st: FatState, c: int, n: int)
    requires
        model::valid(st),
        0 <= n,
        0 <= c,
    ensures
        read_run(st, c, n) matches Ok(d) ==> d.len() == n * model::bpc(st),
    decreases n,
{
    let s = model::spc(st);
    let most = 4096int / s;
    assert(1 <= most <= 4096) by (nonlinear_arith)
        requires
            1 <= s <= 128,
            most == 4096int / s,
    ;
    let k = if n < most {
        n
    } else {
        most
    };
    if n > 0 {
        lemma_run_len(st, c + k, n - k);
        driver::lemma_geometry(st, c as u32);
        let l = model::cluster_lba(st, c as u32);
        assert(k * s > 0) by (nonlinear_arith)
            requires
                k > 0,
                s > 0,
        ;
        assert((l + k * s) * 512 - l * 512 == k * (512 * s)) by (nonlinear_arith);
        assert(n * (512 * s) == k * (512 * s) + (n - k) * (512 * s)) by (nonlinear_arith);
    } else {
        assert(0 * model::bpc(st) == 0);
    }
}

impl Fatfs {
    /// The runs of consecutive clusters of the chain that starts at `start`.
    pub fn analyze_cluster_chain(&mut self, start: u32) -> (r: Result<Vec<(u32, u32)>, Error>)
        requires
            old(self).wf(),
        ensures
            final(self).wf(),
            final(self)@ == old(self)@,
            match r {
                Ok(v) => chain_ranges(old(self)@, start) == Ok::<Seq<(u32, u32)>, Error>(v@)
                    && in_numbers(v@),
                Err(e) => chain_ranges(old(self)@, start) == Err::<Seq<(u32, u32)>, Error>(e),
            },
    {
        reveal(chain_ranges);
        let mut out: Vec<(u32, u32)> = Vec::new();
        if start < 2 {
            assert(out@ =~= Seq::<(u32, u32)>::empty());
            return Ok(out);
        }
        let limit: u64 = self.chain_limit();
        let mut cur: u32 = start;
        let mut fuel: u64 = limit;
        let ghost mut done = Seq::<u32>::empty();
        let ghost st = self@;
        let ghost whole = model::chain(st, start, limit as int);
        assert(after(done, whole) == whole) by {
            if whole is Ok {
                assert(done + whole->Ok_0 =~= whole->Ok_0);
            }
        }
        assert(out@ =~= ranges(done));
        while fuel > 0
            invariant
                self.wf(),
                self@ == st,
                st == old(self)@,
                start >= 2,
                cur >= 1,
                limit == model::chain_limit(st),
                whole == model::chain(st, start, limit as int),
                chain_ranges(st, start) == (match whole {
                    Ok(cs) => Ok::<Seq<(u32, u32)>, Error>(ranges(cs)),
                    Err(e) => Err::<Seq<(u32, u32)>, Error>(e),
                }),
                whole == after(done, model::chain(st, cur, fuel as int)),
                out@ == ranges(done),
                in_numbers(out@),
                out@.len() <= done.len(),
            decreases fuel,
        {
            let n: usize = out.len();
            let extend: bool = n > 0 && out[n - 1].0 as u64 + out[n - 1].1 as u64 == cur as u64;
            let ghost before = out@;
            if extend {
                let last = out[n - 1];
                out[n - 1] = (last.0, last.1 + 1);
            } else {
                out.push((cur, 1));
            }
            let ghost prev = done;
            proof {
                done = done.push(cur);
                assert(done.drop_last() =~= prev);
                assert(out@ =~= ranges(done));
            }
            let next: Option<u32> = match self.get_fat_entry(cur) {
                Ok(x) => x,
                Err(e) => {
                    return Err(e);
                },
            };
            proof {
                model::next_is_not_free(st, cur);
            }
            match next {
                None => {
                    assert(prev + seq![cur] =~= done);
                    assert(whole == Ok::<Seq<u32>, Error>(done));
                    return Ok(out);
                },
                Some(x) => {
                    proof {
                        let rest = model::chain(st, x, fuel - 1);
                        if rest is Ok {
                            assert(prev + (seq![cur] + rest->Ok_0) =~= done + rest->Ok_0);
                        }
                    }
                    cur = x;
                },
            }
            fuel = fuel - 1;
        }
        Err(Error::Corrupted)
    }

    /// Reads consecutive clusters, no more than [`MAX_BATCH_SECTORS`] in one go.
    fn read_consecutive_clusters(&mut self, start: u32, count: u32) -> (r: Result<Vec<u8>, Error>)
        requires
            old(self).wf(),
            start + count <= 0x1_0000_0000,
        ensures
            final(self).wf(),
            final(self)@ == old(self)@,
            types::bytes_of(r) == read_run(old(self)@, start as int, count as int),
            r matches Ok(d) ==> d@.len() == count * model::bpc(old(self)@),
    {
        let ghost st = self@;
        let spc: u16 = self.boot_info.sectors_per_cluster as u16;
        let most: u32 = (MAX_BATCH_SECTORS / spc) as u32;
        proof {
            lemma_batch(spc as int);
        }
        let mut out: Vec<u8> = Vec::new();
        let mut done: u32 = 0;
        let ghost whole = read_run(st, start as int, count as int);
        assert(append_to(out@, whole) == whole) by {
            if whole is Ok {
                assert(out@ + whole->Ok_0 =~= whole->Ok_0);
            }
        }
        while done < count
            invariant
                done <= count,
                start + count <= 0x1_0000_0000,
                self.wf(),
                self@ == st,
                st == old(self)@,
                spc == model::spc(st),
                1 <= spc <= 128,
                1 <= most <= 4096,
                most == 4096int / spc as int,
                most * spc == 4096,
                whole == read_run(st, start as int, count as int),
                append_to(out@, read_run(st, start + done, count - done)) == whole,
            decreases count - done,
        {
            let batch: u32 = if count - done < most {
                count - done
            } else {
                most
            };
            let c: u32 = start + done;
            let lba: u64 = self.cluster_to_lba(c);
            assert(batch * spc <= most * spc) by (nonlinear_arith)
                requires
                    batch <= most,
                    spc >= 1,
            ;
            let data = match self.read_disk_sectors(lba, batch as u16 * spc) {
                Ok(d) => d,
                Err(e) => {
                    return Err(e);
                },
            };
            proof {
                let rest = read_run(st, start + done + batch, count - done - batch);
                if rest is Ok {
                    assert(out@ + (data@ + rest->Ok_0) =~= (out@ + data@) + rest->Ok_0);
                }
            }
            push_slice(&mut out, data.as_slice());
            done = done + batch;
        }
        proof {
            assert(out@ + Seq::<u8>::empty() =~= out@);
            lemma_run_len(st, start as int, count as int);
        }
        Ok(out)
    }

    /// Reads a whole file.
    pub fn read_file(&mut self, e: &DirectoryEntry) -> (r: Result<Vec<u8>, Error>)
        requires
            old(self).wf(),
        ensures
            final(self).wf(),
            final(self)@ == old(self)@,
            types::bytes_of(r) == file_data(old(self)@, e@),
    {
        reveal(file_data);
        let ghost st = self@;
        if e.is_directory() {
            return Err(Error::NotAFile);
        }
        let mut out: Vec<u8> = Vec::new();
        if e.file_size == 0 {
            assert(out@ =~= Seq::<u8>::empty());
            return Ok(out);
        }
        let start: u32 = e.first_cluster();
        if start < 2 {
            return Err(Error::Corrupted);
        }
        let rs = match self.analyze_cluster_chain(start) {
            Ok(v) => v,
            Err(x) => {
                return Err(x);
            },
        };
        let mut remaining: usize = e.file_size as usize;
        let mut i: usize = 0;
        let ghost whole = read_all(st, rs@, 0, remaining as int);
        assert(append_to(out@, whole) == whole) by {
            if whole is Ok {
                assert(out@ + whole->Ok_0 =~= whole->Ok_0);
            }
        }
        while i < rs.len() && remaining > 0
            invariant
                i <= rs.len(),
                self.wf(),
                self@ == st,
                st == old(self)@,
                in_numbers(rs@),
                    file_data(st, e@) == whole,
                append_to(out@, read_all(st, rs@, i as int, remaining as int)) == whole,
            decreases rs.len() - i,
        {
            let (first, count) = rs[i];
            assert(rs@[i as int].0 + rs@[i as int].1 <= 0x1_0000_0000);
            let data = match self.read_consecutive_clusters(first, count) {
                Ok(d) => d,
                Err(x) => {
                    return Err(x);
                },
            };
            let take: usize = if remaining < data.len() {
                remaining
            } else {
                data.len()
            };
            let piece = sub_vec(data.as_slice(), 0, take);
            proof {
                assert(piece@ =~= data@.take(take as int));
                let rest = read_all(st, rs@, i + 1, remaining - take);
                if rest is Ok {
                    assert(out@ + (piece@ + rest->Ok_0) =~= (out@ + piece@) + rest->Ok_0);
                }
            }
            push_slice(&mut out, piece.as_slice());
            remaining = remaining - take;
            i = i + 1;
        }
        if remaining > 0 {
            return Err(Error::Corrupted);
        }
        assert(out@ + Seq::<u8>::empty() =~= out@);
        Ok(out)
    }

    /// Reads part of a file.
    pub fn read_file_offset(&mut self, e: &DirectoryEntry, offset: usize, count: usize) -> (r:
        Result<Vec<u8>, Error>)
        requires
            old(self).wf(),
        ensures
            final(self).wf(),
            final(self)@ == old(self)@,
            types::bytes_of(r) == file_slice(old(self)@, e@, offset as int, count as int),
    {
        reveal(file_slice);
        let ghost st = self@;
        if e.is_directory() {
            return Err(Error::NotAFile);
        }
        let mut out: Vec<u8> = Vec::new();
        let size: usize = e.file_size as usize;
        if offset >= size || count == 0 {
            assert(out@ =~= Seq::<u8>::empty());
            return Ok(out);
        }
        let n: usize = if count < size - offset {
            count
        } else {
            size - offset
        };
        let bpc: usize = self.boot_info.sectors_per_cluster as usize * 512;
        let idx: usize = offset / bpc;
        let mut c: u32 = e.first_cluster();
        let mut k: usize = idx;
        let ghost target = model::step(st, entry::first_cluster(e@), idx as int);
        while k > 0
            invariant
                self.wf(),
                self@ == st,
                st == old(self)@,
                offset < size,
                size == e@.file_size,
                count > 0,
                !entry::has_attr(e@, ATTR_DIRECTORY),
                idx == offset as int / model::bpc(st),
                target == model::step(st, entry::first_cluster(e@), idx as int),
                target == model::step(st, c, k as int),
                file_slice(st, e@, offset as int, count as int) == (match target {
                    Err(x) => Err::<Seq<u8>, Error>(x),
                    Ok(None) => Ok::<Seq<u8>, Error>(Seq::empty()),
                    Ok(Some(y)) => file_slice(st, e@, offset as int, count as int),
                }),
                out@ == Seq::<u8>::empty(),
            decreases k,
        {
            let next: Option<u32> = match self.get_fat_entry(c) {
                Ok(x) => x,
                Err(x) => {
                    return Err(x);
                },
            };
            match next {
                Some(x) => {
                    c = x;
                },
                None => {
                    return Ok(out);
                },
            }
            k = k - 1;
        }
        let inner: usize = offset % bpc;
        let last: usize = (offset + n - 1) / bpc;
        proof {
            assert(idx <= last) by (nonlinear_arith)
                requires
                    idx == offset / bpc,
                    last == (offset + n - 1) as usize / bpc,
                    n >= 1,
                    bpc > 0,
                    offset + n - 1 <= usize::MAX,
            ;
            assert(last <= offset + n - 1) by (nonlinear_arith)
                requires
                    last == (offset + n - 1) as usize / bpc,
                    bpc > 0,
                    n >= 1,
                    offset + n - 1 <= usize::MAX,
            ;
        }
        let rs = match self.analyze_cluster_chain(c) {
            Ok(v) => v,
            Err(x) => {
                return Err(x);
            },
        };
        let mut left: u32 = (last - idx + 1) as u32;
        let mut remaining: usize = n;
        let mut skip: usize = inner;
        let mut i: usize = 0;
        let ghost whole = read_some(
            st,
            rs@,
            0,
            left as int,
            remaining as int,
            skip as int,
        );
        assert(file_slice(st, e@, offset as int, count as int) == whole);
        assert(append_to(out@, whole) == whole) by {
            if whole is Ok {
                assert(out@ + whole->Ok_0 =~= whole->Ok_0);
            }
        }
        while i < rs.len() && remaining > 0 && left > 0
            invariant
                i <= rs.len(),
                self.wf(),
                self@ == st,
                st == old(self)@,
                in_numbers(rs@),
                    file_slice(st, e@, offset as int, count as int) == whole,
                append_to(
                    out@,
                    read_some(
                        st,
                        rs@,
                        i as int,
                        left as int,
                        remaining as int,
                        skip as int,
                    ),
                ) == whole,
            decreases rs.len() - i,
        {
            let (first, len) = rs[i];
            assert(rs@[i as int].0 + rs@[i as int].1 <= 0x1_0000_0000);
            let k: u32 = if len < left {
                len
            } else {
                left
            };
            let data = match self.read_consecutive_clusters(first, k) {
                Ok(d) => d,
                Err(x) => {
                    return Err(x);
                },
            };
            let avail: usize = if data.len() < skip {
                0
            } else {
                data.len() - skip
            };
            let take: usize = if remaining < avail {
                remaining
            } else {
                avail
            };
            let piece: Vec<u8> = if take > 0 {
                sub_vec(data.as_slice(), skip, skip + take)
            } else {
                Vec::new()
            };
            proof {
                if take == 0 {
                    assert(piece@ =~= Seq::<u8>::empty());
                }
                let rest = read_some(st, rs@, i + 1, left - k, remaining - take, 0);
                if rest is Ok {
                    assert(out@ + (piece@ + rest->Ok_0) =~= (out@ + piece@) + rest->Ok_0);
                }
            }
            push_slice(&mut out, piece.as_slice());
            remaining = remaining - take;
            left = left - k;
            skip = 0;
            i = i + 1;
        }
        assert(out@ + Seq::<u8>::empty() =~= out@);
        Ok(out)
    }

    /// The cluster at index `idx` of the chain that starts at `head`, if the chain is
    /// that long. A chain that comes back to itself is corrupt.
    pub fn cluster_at_index(&mut self, head: u32, idx: usize) -> (r: Result<Option<u32>, Error>)
        requires
            old(self).wf(),
        ensures
            final(self).wf(),
            final(self)@ == old(self)@,
            r == at_index(old(self)@, head, idx as int),
    {
        if head < 2 {
            return Ok(None);
        }
        let mut seen = SortedSet::new();
        let mut cur: u32 = head;
        let mut k: usize = idx;
        while k > 0
            invariant
                self.wf(),
                self@ == old(self)@,
                head >= 2,
                model::step_guarded(self@, head, idx as int, Set::empty())
                    == model::step_guarded(self@, cur, k as int, seen@),
            decreases k,
        {
            if !seen.insert(cur as u64) {
                return Err(Error::Corrupted);
            }
            let next: Option<u32> = match self.get_fat_entry(cur) {
                Ok(x) => x,
                Err(e) => {
                    return Err(e);
                },
            };
            match next {
                Some(n) => {
                    cur = n;
                },
                None => {
                    return Ok(None);
                },
            }
            k = k - 1;
        }
        Ok(Some(cur))
    }
}

/// The cluster at index `idx` of the chain that starts at `head`.
pub open spec fn at_index(st: FatState, head: u32, idx: int) -> Result<Option<u32>, Error> {
    if head < 2 {
        Ok::<Option<u32>, Error>(None)
    } else {
        model::step_guarded(st, head, idx, Set::empty())
    }
}

/// A result with bytes put in front of it.
pub open spec fn append_to(done: Seq<u8>, r: Result<Seq<u8>, Error>) -> Result<Seq<u8>, Error> {
    match r {
        Ok(rest) => Ok::<Seq<u8>, Error>(done + rest),
        Err(e) => Err::<Seq<u8>, Error>(e),
    }
}

} // verus!
