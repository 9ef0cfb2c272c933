//! Writing file data and setting file sizes.
use vstd::prelude::*;
use crate::bytes;
use crate::bytes::{sub_vec, write_at, zero_vec};
use crate::error::Error;
use crate::block_device::PageWrite;
use super::datalog;
use super::driver;
use super::driver::EfsDriver;
use super::extents::ExtentMap;
use super::layout;
use super::layout::{checksum_inode, encode_node, EfsExtent, EfsInode, InodeView, BLOCK_SIZE, INODE_DATA_AREA_SIZE, INODE_FLAG_INLINE_DATA, MAX_INLINE_EXTENTS};
use super::model;

verus! {

broadcast use crate::block_device::writing;

impl EfsDriver {
    /// Moves inline data out to a block of its own. Only the bytes the data area
    /// holds are kept, even when the inode claims a larger size.
    pub fn convert_inline_to_extents(&mut self, ino: u64, inode: &EfsInode) -> (r: Result<
        (),
        Error,
    >)
        requires
            old(self).wf(),
            inode.wf(),
        ensures
            final(self).wf(),
            final(self).staged_since(old(self)),
            (final(self)@, r) == model::convert_inline(old(self)@, ino, inode@),
    {
        proof {
            reveal(model::convert_inline);
        }
        let keep: usize = if inode.size < INODE_DATA_AREA_SIZE as u64 {
            inode.size as usize
        } else {
            INODE_DATA_AREA_SIZE
        };
        let phys: u64 = match self.alloc_block() {
            Ok(b) => b,
            Err(e) => return Err(e),
        };
        let mut buf = zero_vec(BLOCK_SIZE);
        let kept = sub_vec(inode.data_area.as_slice(), 0, keep);
        write_at(&mut buf, 0, kept.as_slice());
        match self.write_block(phys, buf.as_slice()) {
            Ok(_) => {},
            Err(e) => return Err(e),
        }
        let mut updated = inode.duplicate();
        let mut es: Vec<EfsExtent> = Vec::new();
        es.push(EfsExtent::build(0, 1, phys));
        assert(es@ =~= seq![EfsExtent::make(0, 1, phys)]);
        updated.flags = updated.flags & !INODE_FLAG_INLINE_DATA;
        updated.data_area = encode_node(
            INODE_DATA_AREA_SIZE,
            0,
            MAX_INLINE_EXTENTS as u16,
            es.as_slice(),
        );
        updated.blocks = 1;
        checksum_inode(&mut updated);
        self.write_inode(ino, &updated)
    }

    /// Writes `data` at `off` of a file that is not inline, block by block. A block
    /// the write covers completely is not read first.
    pub fn write_via_extents(&mut self, ino: u64, off: u64, data: &[u8]) -> (r: Result<(), Error>)
        requires
            old(self).wf(),
            off + data.len() <= u64::MAX,
        ensures
            final(self).wf(),
            final(self).written_since(old(self)),
            (final(self)@, r) == model::write_extents(old(self)@, ino, off as int, data@, 0),
            r is Ok ==> final(self).logged_since(
                old(self),
                datalog::extents_log(old(self)@, ino, off as int, data@, 0),
            ),
    {
        let mut w: usize = 0;
        let ghost mut done: Seq<PageWrite> = Seq::empty();
        let ghost all = datalog::extents_log(self@, ino, off as int, data@, 0);
        proof {
            assert(done + all =~= all);
            assert(self.logged_since(old(self), done));
        }
        while w < data.len()
            invariant
                self.wf(),
                self.written_since(old(self)),
                self.logged_since(old(self), done),
                all == datalog::extents_log(old(self)@, ino, off as int, data@, 0),
                done + datalog::extents_log(self@, ino, off as int, data@, w as int) == all,
                off + data.len() <= u64::MAX,
                w <= data.len(),
                model::write_extents(old(self)@, ino, off as int, data@, 0)
                    == model::write_extents(self@, ino, off as int, data@, w as int),
            decreases data.len() - w,
        {
            let ghost top = *self;
            let pos: u64 = off + w as u64;
            let lb: u32 = ((pos / 4096) % 0x1_0000_0000) as u32;
            let skew: usize = (pos % 4096) as usize;
            let n: usize = if data.len() - w < BLOCK_SIZE - skew {
                data.len() - w
            } else {
                BLOCK_SIZE - skew
            };
            let phys: u64 = match self.ensure_block_for_logical(ino, lb, n != BLOCK_SIZE) {
                Ok(p) => p,
                Err(e) => return Err(e),
            };
            let mut block = zero_vec(BLOCK_SIZE);
            if n != BLOCK_SIZE {
                block = match self.read_block(phys) {
                    Ok(b) => b,
                    Err(e) => return Err(e),
                };
            }
            let piece = sub_vec(data, w, w + n);
            write_at(&mut block, skew, piece.as_slice());
            let ghost before = *self;
            match self.write_data(phys, block.as_slice()) {
                Ok(_) => {},
                Err(e) => return Err(e),
            }
            proof {
                let one = seq![datalog::block_write(before@, phys, block@)];
                let rest = datalog::extents_log(self@, ino, off as int, data@, w + n);
                let none = Seq::<PageWrite>::empty();
                driver::lemma_logged_on(top, before, *self, none, one);
                assert(none + one =~= one);
                driver::lemma_logged_on(*old(self), top, *self, done, one);
                assert(datalog::extents_log(top@, ino, off as int, data@, w as int) == one + rest);
                assert(done + (one + rest) =~= (done + one) + rest);
                done = done + one;
            }
            w = w + n;
        }
        proof {
            assert(done + Seq::<PageWrite>::empty() =~= done);
        }
        Ok(())
    }

    /// Writes `data` within the inode itself.
    fn write_inline(
        &mut self,
        ino: u64,
        inode: &EfsInode,
        off: usize,
        data: &[u8],
        size: u64,
        now: u64,
    ) -> (r: Result<u64, Error>)
        requires
            old(self).wf(),
            inode.wf(),
            off + data.len() <= INODE_DATA_AREA_SIZE,
        ensures
            final(self).wf(),
            final(self).staged_since(old(self)),
            ({
                let w = model::write_inode(
                    old(self)@,
                    ino,
                    layout::stamped(
                        InodeView {
                            data_area: bytes::splice(inode@.data_area, off as int, data@),
                            size,
                            mtime_sec: now,
                            ..inode@
                        },
                    ),
                );
                final(self)@ == w.0 && r == (match w.1 {
                    Ok(_) => Ok::<u64, Error>(size),
                    Err(e) => Err::<u64, Error>(e),
                })
            }),
    {
        let mut updated = inode.duplicate();
        write_at(&mut updated.data_area, off, data);
        updated.size = size;
        updated.mtime_sec = now;
        checksum_inode(&mut updated);
        match self.write_inode(ino, &updated) {
            Ok(_) => Ok(size),
            Err(e) => Err(e),
        }
    }

    /// Writes `data` at `off` of a file, growing it if necessary. Returns the new
    /// size of the file. `now` is the current time.
    #[verifier::spinoff_prover]
    #[verifier::rlimit(60)]
    pub fn write_file_data(&mut self, ino: u64, off: usize, data: &[u8], now: u64) -> (r: Result<
        u64,
        Error,
    >)
        requires
            old(self).wf(),
            off + data.len() <= usize::MAX,
        ensures
            final(self).wf(),
            final(self).written_since(old(self)),
            (final(self)@, r) == model::write_file_data(old(self)@, ino, off as int, data@, now),
            r is Ok ==> final(self).logged_since(
                old(self),
                datalog::file_log(old(self)@, ino, off as int, data@),
            ),
    {
        proof {
            reveal(model::write_file_data);
        }
        let inode = match self.read_inode(ino) {
            Ok(i) => i,
            Err(e) => return Err(e),
        };
        if data.len() == 0 {
            return Ok(inode.size);
        }
        let end: u64 = (off + data.len()) as u64;
        if inode.flags & INODE_FLAG_INLINE_DATA != 0 {
            if end <= INODE_DATA_AREA_SIZE as u64 {
                let size: u64 = if end > inode.size {
                    end
                } else {
                    inode.size
                };
                return self.write_inline(ino, &inode, off, data, size, now);
            }
            match self.convert_inline_to_extents(ino, &inode) {
                Ok(_) => {},
                Err(e) => return Err(e),
            }
        }
        let ghost mid = *self;
        let ghost log = datalog::extents_log(mid@, ino, off as int, data@, 0);
        match self.write_via_extents(ino, off as u64, data) {
            Ok(_) => {},
            Err(e) => return Err(e),
        }
        let ghost done = *self;
        proof {
            let none = Seq::<PageWrite>::empty();
            driver::lemma_logged_on(*old(self), mid, done, none, log);
            assert(none + log =~= log);
        }
        let mut updated = match self.read_inode(ino) {
            Ok(i) => i,
            Err(e) => return Err(e),
        };
        if end > updated.size {
            updated.size = end;
        }
        let size: u64 = updated.size;
        updated.mtime_sec = now;
        checksum_inode(&mut updated);
        match self.write_inode(ino, &updated) {
            Ok(_) => {
                proof {
                    let none = Seq::<PageWrite>::empty();
                    driver::lemma_logged_on(*old(self), done, *self, log, none);
                    assert(log + none =~= log);
                }
                Ok(size)
            },
            Err(e) => Err(e),
        }
    }

    fn trim_extents(&mut self, map: &ExtentMap, keep: u64) -> (r: Result<ExtentMap, Error>)
        requires
            old(self).wf(),
        ensures
            final(self).wf(),
            final(self).staged_since(old(self)),
            (final(self)@, super::driver::map_of(r)) == model::trim_extents(
                old(self)@,
                map@,
                0,
                keep as int,
                Seq::empty(),
            ),
    {
        let all = map.as_slice();
        let mut kept: Vec<EfsExtent> = Vec::new();
        let mut k: usize = 0;
        assert(kept@ =~= Seq::<EfsExtent>::empty());
        while k < all.len()
            invariant
                self.wf(),
                self.staged_since(old(self)),
                all@ == map@,
                k <= all@.len(),
                model::trim_extents(old(self)@, map@, 0, keep as int, Seq::empty())
                    == model::trim_extents(self@, map@, k as int, keep as int, kept@),
            decreases all@.len() - k,
        {
            let e = all[k];
            let start: u64 = e.logical_block as u64;
            let end: u64 = start + e.length as u64;
            if start >= keep {
                match self.free_run(e.physical_start(), e.length as u64) {
                    Ok(_) => {},
                    Err(x) => return Err(x),
                }
            } else if end > keep {
                let n: u64 = keep - start;
                match self.free_run(e.physical_start() + n, e.length as u64 - n) {
                    Ok(_) => {},
                    Err(x) => return Err(x),
                }
                kept.push(EfsExtent { length: n as u16, ..e });
            } else {
                kept.push(e);
            }
            k = k + 1;
        }
        Ok(ExtentMap::from_sorted(kept))
    }

    /// Sets a file's size within the open transaction.
    pub fn truncate_inner(&mut self, ino: u64, size: u64, now: u64) -> (r: Result<(), Error>)
        requires
            old(self).wf(),
        ensures
            final(self).wf(),
            final(self).staged_since(old(self)),
            (final(self)@, r) == model::truncate(old(self)@, ino, size, now),
    {
        proof {
            reveal(model::truncate);
        }
        let inode = match self.read_inode(ino) {
            Ok(i) => i,
            Err(e) => return Err(e),
        };
        let inline: bool = inode.flags & INODE_FLAG_INLINE_DATA != 0;
        if size < inode.size && !inline {
            let map = match self.load_extent_map(&inode) {
                Ok(m) => m,
                Err(_) => ExtentMap::from_sorted(Vec::new()),
            };
            assert(map@ =~= model::map_or_empty(old(self)@, inode@));
            let keep: u64 = size / 4096 + (size % 4096 + 4095) / 4096;
            assert(keep == (size + 4095) / 4096);
            let kept = match self.trim_extents(&map, keep) {
                Ok(m) => m,
                Err(e) => return Err(e),
            };
            let mut updated = inode;
            match self.store_extent_map(&mut updated, &kept) {
                Ok(_) => {},
                Err(e) => return Err(e),
            }
            updated.size = size;
            updated.mtime_sec = now;
            checksum_inode(&mut updated);
            return self.write_inode(ino, &updated);
        }
        let mut updated = inode;
        if size >= updated.size && inline && size > INODE_DATA_AREA_SIZE as u64 {
            match self.convert_inline_to_extents(ino, &updated) {
                Ok(_) => {},
                Err(e) => return Err(e),
            }
            updated = match self.read_inode(ino) {
                Ok(i) => i,
                Err(e) => return Err(e),
            };
        }
        updated.size = size;
        updated.mtime_sec = now;
        checksum_inode(&mut updated);
        self.write_inode(ino, &updated)
    }
}

} // verus!
