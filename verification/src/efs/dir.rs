//! Directories, names and the orphan chain.
use vstd::prelude::*;
use crate::types;
use crate::bytes::{push_slice, put_u64, sub_vec, write_at, zero_vec};
use crate::error::Error;
use crate::journal;
use crate::journal::ring;
use crate::sorted::SortedSet;
use super::dirent;
use super::dirent::{build_dir_block, dir_entry_min_size, find_dotdot, find_entry, find_slot, lookup_entry, parse_dir_entries_from_bytes, place_entry, remove_entry, write_dir_entry, DirEntry};
use super::dirmodel;
use super::driver::{concluded_staged, settled_staged, transactions, EfsDriver};
use super::layout::{checksum_inode, checksum_superblock, encode_bgd, encode_node, EfsBlockGroupDesc, EfsExtent, EfsInode, BLOCK_SIZE, FT_DIR, INODE_DATA_AREA_SIZE, INODE_FLAG_INLINE_DATA, MAX_INLINE_EXTENTS, SUPERBLOCK_SIZE, S_IFDIR, S_IFLNK, S_IFMT};
use super::model;

verus! {

broadcast use crate::block_device::staging;

/// Entries seen through their views.
pub open spec fn entries_of(r: Result<Vec<DirEntry>, Error>) -> Result<
    Seq<dirent::EntryView>,
    Error,
> {
    match r {
        Ok(v) => Ok(dirent::views(v@)),
        Err(e) => Err(e),
    }
}

/// Whether writing the metadata leads from `pre` to `mid` with result `r` and, if that went well,
/// writing everything that the journal lets go from there to `post`.
pub open spec fn flushed_from(
    pre: EfsDriver,
    mid: EfsDriver,
    post: EfsDriver,
    r: Result<(), Error>,
) -> bool {
    &&& mid.staged_within(&pre)
    &&& post@ == mid@
    &&& post.starting_lba == mid.starting_lba
    &&& post.journal.same_region(&mid.journal)
    &&& ring::ring_state(post.journal, post.device) == (if r is Ok {
        ring::flushed(ring::ring_state(mid.journal, mid.device))
    } else {
        ring::ring_state(mid.journal, mid.device)
    })
}

impl EfsDriver {
    /// A directory's contents.
    pub fn read_dir_data_cached(&mut self, inode: &EfsInode) -> (r: Result<Vec<u8>, Error>)
        requires
            old(self).wf(),
            inode.wf(),
        ensures
            final(self).wf(),
            final(self)@ == old(self)@,
            final(self).untouched(old(self)),
            types::bytes_of(r) == dirmodel::read_dir_data(old(self)@, inode@),
    {
        proof {
            reveal(dirmodel::read_dir_data);
        }
        let mut out: Vec<u8> = Vec::new();
        assert(out@ =~= Seq::<u8>::empty());
        if inode.size == 0 {
            return Ok(out);
        }
        if inode.flags & INODE_FLAG_INLINE_DATA != 0 {
            let n: usize = if inode.size < INODE_DATA_AREA_SIZE as u64 {
                inode.size as usize
            } else {
                INODE_DATA_AREA_SIZE
            };
            let v = sub_vec(inode.data_area.as_slice(), 0, n);
            assert(v@ =~= inode@.data_area.take(n as int));
            return Ok(v);
        }
        if inode.size > (usize::MAX - 4096) as u64 {
            return Err(Error::Corrupted);
        }
        let size: usize = inode.size as usize;
        let map = match self.load_extent_map(inode) {
            Ok(m) => m,
            Err(e) => return Err(e),
        };
        let all = map.as_slice();
        let mut k: usize = 0;
        let mut j: u64 = 0;
        while k < all.len() && out.len() < size
            invariant
                self.wf(),
                self@ == old(self)@,
                self.untouched(old(self)),
                all@ == map@,
                k <= all@.len(),
                j <= 0xFFFF,
                out@.len() <= size <= usize::MAX - 4096,
                dirmodel::read_dir_data(old(self)@, inode@) == dirmodel::dir_blocks(
                    old(self)@,
                    map@,
                    k as int,
                    j as int,
                    size as int,
                    out@,
                ),
            decreases all@.len() - k, 0x1_0000 - j,
        {
            let e = all[k];
            if j >= e.length as u64 {
                k = k + 1;
                j = 0;
            } else {
                let b = match self.read_block(e.physical_start() + j) {
                    Ok(b) => b,
                    Err(e) => return Err(e),
                };
                let n: usize = if size - out.len() < 4096 {
                    size - out.len()
                } else {
                    4096
                };
                let piece = sub_vec(b.as_slice(), 0, n);
                assert(piece@ =~= b@.take(n as int));
                push_slice(&mut out, piece.as_slice());
                j = j + 1;
            }
        }
        if out.len() < size {
            let pad = zero_vec(size - out.len());
            push_slice(&mut out, pad.as_slice());
        }
        Ok(out)
    }

    /// The entries of a directory.
    pub fn read_dir_entries(&mut self, ino: u64) -> (r: Result<Vec<DirEntry>, Error>)
        requires
            old(self).wf(),
        ensures
            final(self).wf(),
            final(self)@ == old(self)@,
            final(self).untouched(old(self)),
            entries_of(r) == dirmodel::read_dir_entries(old(self)@, ino),
    {
        proof {
            reveal(dirmodel::read_dir_entries);
        }
        let inode = match self.read_inode(ino) {
            Ok(i) => i,
            Err(e) => return Err(e),
        };
        if inode.mode & S_IFMT != S_IFDIR {
            return Err(Error::NotADir);
        }
        match self.read_dir_data_cached(&inode) {
            Ok(d) => Ok(parse_dir_entries_from_bytes(d.as_slice())),
            Err(e) => Err(e),
        }
    }

    /// Looks up one entry of a directory: inode number and entry type.
    pub fn lookup_in_dir(&mut self, ino: u64, name: &[u8]) -> (r: Result<Option<(u64, u8)>, Error>)
        requires
            old(self).wf(),
        ensures
            final(self).wf(),
            final(self)@ == old(self)@,
            final(self).untouched(old(self)),
            r == dirmodel::lookup_in_dir(old(self)@, ino, name@),
    {
        proof {
            reveal(dirmodel::lookup_in_dir);
        }
        let inode = match self.read_inode(ino) {
            Ok(i) => i,
            Err(e) => return Err(e),
        };
        if inode.mode & S_IFMT != S_IFDIR {
            return Err(Error::NotADir);
        }
        match self.read_dir_data_cached(&inode) {
            Ok(d) => Ok(lookup_entry(d.as_slice(), name)),
            Err(e) => Err(e),
        }
    }

    /// Writes a directory's contents back.
    fn write_dir_blocks(&mut self, ino: u64, data: &Vec<u8>) -> (r: Result<(), Error>)
        requires
            old(self).wf(),
        ensures
            final(self).wf(),
            final(self).staged_since(old(self)),
            (final(self)@, r) == dirmodel::write_dir_data(old(self)@, ino, data@),
    {
        proof {
            reveal(dirmodel::write_dir_data);
        }
        let inode = match self.read_inode(ino) {
            Ok(i) => i,
            Err(e) => return Err(e),
        };
        if inode.flags & INODE_FLAG_INLINE_DATA != 0 {
            let n: usize = if data.len() < INODE_DATA_AREA_SIZE {
                data.len()
            } else {
                INODE_DATA_AREA_SIZE
            };
            let mut updated = inode;
            let piece = sub_vec(data.as_slice(), 0, n);
            assert(piece@ =~= data@.take(n as int));
            write_at(&mut updated.data_area, 0, piece.as_slice());
            checksum_inode(&mut updated);
            return self.write_inode(ino, &updated);
        }
        let mut w: usize = 0;
        while w < data.len()
            invariant
                self.wf(),
                self.staged_since(old(self)),
                w <= data@.len(),
                dirmodel::write_dir_data(old(self)@, ino, data@) == dirmodel::put_dir_blocks(
                    self@,
                    ino,
                    data@,
                    w as int,
                ),
            decreases data@.len() - w,
        {
            let lb: u32 = ((w as u64 / 4096) % 0x1_0000_0000) as u32;
            let phys: u64 = match self.ensure_block_for_logical(ino, lb, false) {
                Ok(p) => p,
                Err(e) => return Err(e),
            };
            let end: usize = if data.len() - w < BLOCK_SIZE {
                data.len()
            } else {
                w + BLOCK_SIZE
            };
            let mut buf = zero_vec(BLOCK_SIZE);
            let piece = sub_vec(data.as_slice(), w, end);
            write_at(&mut buf, 0, piece.as_slice());
            match self.write_block(phys, buf.as_slice()) {
                Ok(_) => {},
                Err(e) => return Err(e),
            }
            proof {
                if end < w + 4096 {
                    assert(dirmodel::put_dir_blocks(self@, ino, data@, w + 4096) == (
                        self@,
                        Ok::<(), Error>(()),
                    ));
                    assert(dirmodel::put_dir_blocks(self@, ino, data@, end as int) == (
                        self@,
                        Ok::<(), Error>(()),
                    ));
                }
            }
            w = end;
        }
        Ok(())
    }

    /// Stamps an inode as modified.
    fn touch(&mut self, ino: u64, now: u64) -> (r: Result<(), Error>)
        requires
            old(self).wf(),
        ensures
            final(self).wf(),
            final(self).staged_since(old(self)),
            (final(self)@, r) == dirmodel::touch(old(self)@, ino, now),
    {
        proof {
            reveal(dirmodel::touch);
        }
        let mut inode = match self.read_inode(ino) {
            Ok(i) => i,
            Err(e) => return Err(e),
        };
        inode.mtime_sec = now;
        checksum_inode(&mut inode);
        self.write_inode(ino, &inode)
    }

    fn update_dir(&mut self, ino: u64, data: &Vec<u8>, now: u64) -> (r: Result<(), Error>)
        requires
            old(self).wf(),
        ensures
            final(self).wf(),
            final(self).staged_since(old(self)),
            (final(self)@, r) == dirmodel::update_dir(old(self)@, ino, data@, now),
    {
        match self.write_dir_blocks(ino, data) {
            Ok(_) => self.touch(ino, now),
            Err(e) => Err(e),
        }
    }

    fn append_dir_block(
        &mut self,
        ino: u64,
        size: u64,
        name: &[u8],
        entry: u64,
        file_type: u8,
        now: u64,
    ) -> (r: Result<(), Error>)
        requires
            old(self).wf(),
            name@.len() <= 255,
            size <= u64::MAX - 4096,
        ensures
            final(self).wf(),
            final(self).staged_since(old(self)),
            (final(self)@, r) == dirmodel::append_dir_block(
                old(self)@,
                ino,
                size as int,
                name@,
                entry,
                file_type,
                now,
            ),
    {
        proof {
            reveal(dirmodel::append_dir_block);
        }
        let inode = match self.read_inode(ino) {
            Ok(i) => i,
            Err(e) => return Err(e),
        };
        if inode.flags & INODE_FLAG_INLINE_DATA != 0 {
            match self.convert_inline_to_extents(ino, &inode) {
                Ok(_) => {},
                Err(e) => return Err(e),
            }
        }
        let lb: u32 = ((size / 4096) % 0x1_0000_0000) as u32;
        let phys: u64 = match self.ensure_block_for_logical(ino, lb, false) {
            Ok(p) => p,
            Err(e) => return Err(e),
        };
        let mut buf = zero_vec(BLOCK_SIZE);
        write_dir_entry(&mut buf, 0, entry, BLOCK_SIZE as u16, file_type, name);
        match self.write_block(phys, buf.as_slice()) {
            Ok(_) => {},
            Err(e) => return Err(e),
        }
        let mut updated = match self.read_inode(ino) {
            Ok(i) => i,
            Err(e) => return Err(e),
        };
        updated.size = size + 4096;
        updated.mtime_sec = now;
        checksum_inode(&mut updated);
        self.write_inode(ino, &updated)
    }

    /// Adds an entry to a directory: in the spare room of the first record that has
    /// enough, or in a new block. The name is not checked for being there already.
    pub fn add_dir_entry(
        &mut self,
        ino: u64,
        name: &[u8],
        entry: u64,
        file_type: u8,
        now: u64,
    ) -> (r: Result<(), Error>)
        requires
            old(self).wf(),
            name@.len() <= 255,
        ensures
            final(self).wf(),
            final(self).staged_since(old(self)),
            (final(self)@, r) == dirmodel::add_dir_entry(
                old(self)@,
                ino,
                name@,
                entry,
                file_type,
                now,
            ),
    {
        proof {
            reveal(dirmodel::add_dir_entry);
        }
        let needed: usize = dir_entry_min_size(name.len() as u8) as usize;
        let inode = match self.read_inode(ino) {
            Ok(i) => i,
            Err(e) => return Err(e),
        };
        let mut data = match self.read_dir_data_cached(&inode) {
            Ok(d) => d,
            Err(e) => return Err(e),
        };
        match find_slot(data.as_slice(), needed) {
            Some(off) => {
                if !place_entry(&mut data, off, entry, file_type, name) {
                    return Err(Error::Corrupted);
                }
                self.update_dir(ino, &data, now)
            },
            None => {
                if inode.size > (usize::MAX - 4096) as u64 {
                    return Err(Error::Corrupted);
                }
                self.append_dir_block(ino, inode.size, name, entry, file_type, now)
            },
        }
    }

    /// Removes an entry from a directory.
    pub fn remove_dir_entry(&mut self, ino: u64, name: &[u8], now: u64) -> (r: Result<(), Error>)
        requires
            old(self).wf(),
        ensures
            final(self).wf(),
            final(self).staged_since(old(self)),
            (final(self)@, r) == dirmodel::remove_dir_entry(old(self)@, ino, name@, now),
    {
        proof {
            reveal(dirmodel::remove_dir_entry);
        }
        let inode = match self.read_inode(ino) {
            Ok(i) => i,
            Err(e) => return Err(e),
        };
        let mut data = match self.read_dir_data_cached(&inode) {
            Ok(d) => d,
            Err(e) => return Err(e),
        };
        match find_entry(data.as_slice(), name) {
            Some((off, prev)) => {
                remove_entry(&mut data, off, prev);
                self.update_dir(ino, &data, now)
            },
            None => Err(Error::FileNotFound),
        }
    }

    /// Makes the `..` entry of a directory name another parent.
    fn update_dotdot_entry(&mut self, ino: u64, parent: u64) -> (r: Result<(), Error>)
        requires
            old(self).wf(),
        ensures
            final(self).wf(),
            final(self).staged_since(old(self)),
            (final(self)@, r) == dirmodel::update_dotdot(old(self)@, ino, parent),
    {
        proof {
            reveal(dirmodel::update_dotdot);
        }
        let inode = match self.read_inode(ino) {
            Ok(i) => i,
            Err(e) => return Err(e),
        };
        let mut data = match self.read_dir_data_cached(&inode) {
            Ok(d) => d,
            Err(e) => return Err(e),
        };
        match find_dotdot(data.as_slice()) {
            Some(off) => {
                put_u64(&mut data, off, parent);
                self.write_dir_blocks(ino, &data)
            },
            None => Err(Error::FileNotFound),
        }
    }
}

// ---- Superblock and orphans -----------------------------------------------------------

impl EfsDriver {
    /// Writes the superblock to block 1, its checksum brought up to date.
    #[verifier::spinoff_prover]
    #[verifier::rlimit(60)]
    pub fn write_superblock(&mut self) -> (r: Result<(), Error>)
        requires
            old(self).wf(),
        ensures
            final(self).wf(),
            final(self).staged_since(old(self)),
            (final(self)@, r) == dirmodel::write_superblock(old(self)@),
    {
        proof {
            reveal(dirmodel::write_superblock);
        }
        checksum_superblock(&mut self.superblock);
        let e = self.superblock.encode();
        assert(e@.len() == SUPERBLOCK_SIZE);
        let mut buf = zero_vec(BLOCK_SIZE);
        write_at(&mut buf, 0, e.as_slice());
        self.write_block(1, buf.as_slice())
    }

    fn encode_bgd_block(&self, k: usize) -> (buf: Vec<u8>)
        requires
            self.wf(),
            k * 64 < self@.bgds.len(),
        ensures
            buf@ == dirmodel::bgd_block(self@.bgds, k as int),
            buf@.len() == BLOCK_SIZE,
    {
        let from: usize = k * 64;
        let to: usize = if self.bgd_table.len() - from < 64 {
            self.bgd_table.len()
        } else {
            from + 64
        };
        let mut out: Vec<u8> = Vec::new();
        let mut i: usize = from;
        assert(out@ =~= Seq::<u8>::empty());
        while i < to
            invariant
                from <= i <= to <= self.bgd_table@.len(),
                to - from <= 64,
                out@ == dirmodel::bgd_bytes(self.bgd_table@, from as int, i as int),
                out@.len() == (i - from) * 64,
            decreases to - i,
        {
            let e = encode_bgd(&self.bgd_table[i]);
            push_slice(&mut out, e.as_slice());
            i = i + 1;
        }
        let mut buf = zero_vec(BLOCK_SIZE);
        write_at(&mut buf, 0, out.as_slice());
        buf
    }

    /// Writes the superblock and the block group descriptors, then everything that the journal
    /// lets go to the medium.
    pub fn flush_inner(&mut self) -> (r: Result<(), Error>)
        requires
            old(self).wf(),
        ensures
            final(self).wf(),
            (final(self)@, r) == dirmodel::flush_metadata(old(self)@),
            exists|mid: EfsDriver| #[trigger] flushed_from(*old(self), mid, *final(self), r),
    {
        let r = self.write_metadata();
        let ghost mid = *self;
        if r.is_ok() {
            self.journal.flush_home(&mut self.device);
        }
        proof {
            journal::lemma_same_pending(self.journal@, mid.journal@);
            assert(self@ =~= mid@);
            assert(flushed_from(*old(self), mid, *self, r));
        }
        r
    }

    /// Writes the superblock and the block group descriptors.
    fn write_metadata(&mut self) -> (r: Result<(), Error>)
        requires
            old(self).wf(),
        ensures
            final(self).wf(),
            final(self).staged_since(old(self)),
            (final(self)@, r) == dirmodel::flush_metadata(old(self)@),
    {
        proof {
            reveal(dirmodel::flush_metadata);
        }
        match self.write_superblock() {
            Ok(_) => {},
            Err(e) => return Err(e),
        }
        let n: usize = self.bgd_table.len();
        let ghost bgds = self@.bgds;
        let mut k: usize = 0;
        while (k as u64) * 64 < n as u64
            invariant
                self.wf(),
                self.staged_since(old(self)),
                self@.bgds == bgds,
                n == bgds.len(),
                n <= u32::MAX,
                k * 64 < n + 64,
                dirmodel::flush_metadata(old(self)@) == dirmodel::write_bgds(
                    self@,
                    bgds,
                    k as int,
                ),
            decreases n + 64 - k * 64,
        {
            let buf = self.encode_bgd_block(k);
            match self.write_block(2 + k as u64, buf.as_slice()) {
                Ok(_) => {},
                Err(e) => return Err(e),
            }
            k = k + 1;
        }
        Ok(())
    }

    /// Puts an inode at the head of the orphan chain.
    pub fn orphan_add(&mut self, ino: u64) -> (r: Result<(), Error>)
        requires
            old(self).wf(),
        ensures
            final(self).wf(),
            final(self).staged_since(old(self)),
            (final(self)@, r) == dirmodel::orphan_add(old(self)@, ino),
    {
        proof {
            reveal(dirmodel::orphan_add);
        }
        let head: u32 = self.superblock.last_orphan;
        self.superblock.last_orphan = (ino % 0x1_0000_0000) as u32;
        let mut inode = match self.read_inode(ino) {
            Ok(i) => i,
            Err(e) => return Err(e),
        };
        inode.orphan_next = head;
        inode.link_count = 0;
        checksum_inode(&mut inode);
        match self.write_inode(ino, &inode) {
            Ok(_) => {},
            Err(e) => return Err(e),
        }
        match self.write_superblock() {
            Ok(_) => {},
            Err(e) => return Err(e),
        }
        self.orphan_prev.insert(ino, 0);
        if head != 0 {
            self.orphan_prev.insert(head as u64, ino);
        }
        Ok(())
    }

    /// Unlinks an inode from the orphan chain; one that is not on it is left alone.
    pub fn orphan_del(&mut self, ino: u64) -> (r: Result<(), Error>)
        requires
            old(self).wf(),
        ensures
            final(self).wf(),
            final(self).staged_since(old(self)),
            (final(self)@, r) == dirmodel::orphan_del(old(self)@, ino),
    {
        proof {
            reveal(dirmodel::orphan_del);
        }
        let prev: u64 = match self.orphan_prev.remove(ino) {
            Some(p) => p,
            None => {
                assert(self@ =~= old(self)@);
                return Ok(());
            },
        };
        let next: u32 = match self.read_inode(ino) {
            Ok(i) => i.orphan_next,
            Err(e) => return Err(e),
        };
        if prev == 0 {
            self.superblock.last_orphan = next;
            match self.write_superblock() {
                Ok(_) => {},
                Err(e) => return Err(e),
            }
        } else {
            let mut p = match self.read_inode(prev) {
                Ok(i) => i,
                Err(e) => return Err(e),
            };
            p.orphan_next = next;
            checksum_inode(&mut p);
            match self.write_inode(prev, &p) {
                Ok(_) => {},
                Err(e) => return Err(e),
            }
        }
        if next != 0 {
            self.orphan_prev.insert(next as u64, prev);
        }
        Ok(())
    }

    /// Frees the blocks of an inode and the inode itself.
    pub fn free_file_storage(&mut self, ino: u64, inode: &EfsInode) -> (r: Result<(), Error>)
        requires
            old(self).wf(),
            inode.wf(),
        ensures
            final(self).wf(),
            final(self).staged_since(old(self)),
            (final(self)@, r) == dirmodel::free_file_storage(old(self)@, ino, inode@),
    {
        proof {
            reveal(dirmodel::free_file_storage);
        }
        if inode.flags & INODE_FLAG_INLINE_DATA == 0 {
            match self.free_extent_storage(inode) {
                Ok(_) => {},
                Err(e) => return Err(e),
            }
        }
        self.free_inode(ino)
    }

    fn reclaim_orphan(&mut self, ino: u64, inode: &EfsInode, next: u32) -> (r: Result<(), Error>)
        requires
            old(self).wf(),
            inode.wf(),
        ensures
            final(self).wf(),
            final(self).staged_since(old(self)),
            (final(self)@, r) == dirmodel::reclaim_orphan(old(self)@, ino, inode@, next),
    {
        match self.free_file_storage(ino, inode) {
            Ok(_) => {},
            Err(e) => return Err(e),
        }
        self.superblock.last_orphan = next;
        self.write_superblock()
    }

    /// Finishes the deletions an unclean shutdown interrupted: walks the orphan chain,
    /// freeing each inode in a transaction of its own. A cycle, an unreadable inode or
    /// a failed free ends the walk and leaves the rest chained. Returns how many inodes
    /// were freed.
    pub fn reclaim_orphans(&mut self) -> (freed: u64)
        requires
            old(self).wf(),
        ensures
            final(self).wf(),
            final(self).starting_lba == old(self).starting_lba,
            final(self).journal.same_region(&old(self).journal),
            exists|x: EfsDriver|
                transactions(*old(self), x, freed as nat) && #[trigger] settled_staged(
                    x,
                    *final(self),
                    false,
                ),
            dirmodel::reclaim_orphans(
                old(self)@,
                old(self)@.sb.last_orphan as u64,
                Set::empty(),
                0,
            ) == (final(self)@, freed as int),
    {
        let mut ino: u64 = self.superblock.last_orphan as u64;
        let mut seen = SortedSet::new();
        let mut freed: u64 = 0;
        while ino != 0 && freed < 0xFFFF_FFFF
            invariant_except_break
                self.wf(),
                transactions(*old(self), *self, freed as nat),
                settled_staged(*self, *self, false),
                self.starting_lba == old(self).starting_lba,
                self.journal.same_region(&old(self).journal),
                freed <= 0xFFFF_FFFF,
                dirmodel::reclaim_orphans(
                    old(self)@,
                    old(self)@.sb.last_orphan as u64,
                    Set::empty(),
                    0,
                ) == dirmodel::reclaim_orphans(self@, ino, seen@, freed as int),
            ensures
                self.wf(),
                exists|x: EfsDriver|
                    transactions(*old(self), x, freed as nat) && #[trigger] settled_staged(
                        x,
                        *self,
                        false,
                    ),
                self.starting_lba == old(self).starting_lba,
                self.journal.same_region(&old(self).journal),
                dirmodel::reclaim_orphans(
                    old(self)@,
                    old(self)@.sb.last_orphan as u64,
                    Set::empty(),
                    0,
                ) == (self@, freed as int),
            decreases 0xFFFF_FFFF - freed,
        {
            if !seen.insert(ino) {
                assert(settled_staged(*self, *self, false));
                break;
            }
            let ghost top = *self;
            let inode = match self.read_inode(ino) {
                Ok(i) => i,
                Err(_) => {
                    assert(settled_staged(top, *self, false));
                    break;
                },
            };
            let next: u32 = inode.orphan_next;
            self.begin_tx();
            let r = self.reclaim_orphan(ino, &inode, next);
            let ghost mid = *self;
            self.end_tx(r.is_ok());
            if r.is_err() {
                assert(concluded_staged(top, mid, *self, false));
                assert(settled_staged(top, *self, false));
                break;
            }
            proof {
                assert(concluded_staged(top, mid, *self, true));
                assert(settled_staged(top, *self, true));
                assert(transactions(*old(self), top, ((freed + 1) - 1) as nat));
                assert(transactions(*old(self), *self, (freed + 1) as nat));
            }
            freed = freed + 1;
            ino = next as u64;
        }
        freed
    }
}

// ---- Creating and removing ------------------------------------------------------------

impl EfsDriver {
    /// Allocates an inode, writes it and enters it in a directory.
    pub fn create_entry(
        &mut self,
        parent: u64,
        name: &[u8],
        inode: &EfsInode,
        file_type: u8,
        now: u64,
    ) -> (r: Result<(), Error>)
        requires
            old(self).wf(),
            inode.wf(),
            name@.len() <= 255,
        ensures
            final(self).wf(),
            final(self).staged_since(old(self)),
            (final(self)@, r) == dirmodel::create_entry(
                old(self)@,
                parent,
                name@,
                inode@,
                file_type,
                now,
            ),
    {
        proof {
            reveal(dirmodel::create_entry);
        }
        let ino: u64 = match self.alloc_inode() {
            Ok(i) => i,
            Err(e) => return Err(e),
        };
        match self.write_inode(ino, inode) {
            Ok(_) => {},
            Err(e) => return Err(e),
        }
        self.add_dir_entry(parent, name, ino, file_type, now)
    }

    fn adjust_links(&mut self, ino: u64, up: bool) -> (r: Result<(), Error>)
        requires
            old(self).wf(),
        ensures
            final(self).wf(),
            final(self).staged_since(old(self)),
            (final(self)@, r) == dirmodel::adjust_links(old(self)@, ino, up),
    {
        proof {
            reveal(dirmodel::adjust_links);
        }
        let mut inode = match self.read_inode(ino) {
            Ok(i) => i,
            Err(e) => return Err(e),
        };
        if up {
            inode.link_count = inode.link_count.wrapping_add(1);
        } else if inode.link_count > 0 {
            inode.link_count = inode.link_count - 1;
        }
        checksum_inode(&mut inode);
        self.write_inode(ino, &inode)
    }

    fn count_dir(&mut self, ino: u64, up: bool)
        requires
            old(self).wf(),
            ino > 0,
        ensures
            final(self).wf(),
            final(self).staged_since(old(self)),
            final(self)@ == dirmodel::count_dir(old(self)@, ino, up),
    {
        let group: u64 = (ino - 1) / self.superblock.inodes_per_group as u64;
        if group < self.bgd_table.len() as u64 {
            let d = self.bgd_table[group as usize];
            if up {
                self.bgd_table[group as usize] = EfsBlockGroupDesc {
                    used_dirs_count: d.used_dirs_count.wrapping_add(1),
                    ..d
                };
            } else if d.used_dirs_count > 0 {
                self.bgd_table[group as usize] = EfsBlockGroupDesc {
                    used_dirs_count: d.used_dirs_count - 1,
                    ..d
                };
            }
        }
        self.enroll_at(2 + group / 64);
    }

    /// Creates a directory: allocates an inode and a block holding `.` and `..`, and
    /// enters it in its parent.
    pub fn create_dir_inner(&mut self, parent: u64, name: &[u8], now: u64) -> (r: Result<
        (),
        Error,
    >)
        requires
            old(self).wf(),
            name@.len() <= 255,
        ensures
            final(self).wf(),
            final(self).staged_since(old(self)),
            (final(self)@, r) == dirmodel::create_dir(old(self)@, parent, name@, now),
    {
        proof {
            reveal(dirmodel::create_dir);
        }
        let ino: u64 = match self.alloc_inode() {
            Ok(i) => i,
            Err(e) => return Err(e),
        };
        assert(ino > 0) by {
            lemma_alloc_positive(old(self)@);
        }
        let phys: u64 = match self.alloc_block() {
            Ok(p) => p,
            Err(e) => return Err(e),
        };
        let block = build_dir_block(ino, parent);
        match self.write_block(phys, block.as_slice()) {
            Ok(_) => {},
            Err(e) => return Err(e),
        }
        let mut es: Vec<EfsExtent> = Vec::new();
        es.push(EfsExtent::build(0, 1, phys));
        assert(es@ =~= seq![EfsExtent::make(0, 1, phys)]);
        let mut inode = EfsInode::new(0x41ED, (now, 0));
        inode.link_count = 2;
        inode.size = BLOCK_SIZE as u64;
        inode.blocks = 1;
        inode.data_area = encode_node(
            INODE_DATA_AREA_SIZE,
            0,
            MAX_INLINE_EXTENTS as u16,
            es.as_slice(),
        );
        checksum_inode(&mut inode);
        match self.write_inode(ino, &inode) {
            Ok(_) => {},
            Err(e) => return Err(e),
        }
        match self.adjust_links(parent, true) {
            Ok(_) => {},
            Err(e) => return Err(e),
        }
        self.count_dir(ino, true);
        self.add_dir_entry(parent, name, ino, FT_DIR, now)
    }

    /// Unnames a file. A symbolic link's storage is freed; anything else joins the
    /// orphan chain until its last user is gone.
    pub fn remove_file_inner(
        &mut self,
        parent: u64,
        ino: u64,
        inode: &EfsInode,
        name: &[u8],
        now: u64,
    ) -> (r: Result<(), Error>)
        requires
            old(self).wf(),
            inode.wf(),
        ensures
            final(self).wf(),
            final(self).staged_since(old(self)),
            (final(self)@, r) == dirmodel::remove_file(
                old(self)@,
                parent,
                ino,
                inode@,
                name@,
                now,
            ),
    {
        proof {
            reveal(dirmodel::remove_file);
        }
        match self.remove_dir_entry(parent, name, now) {
            Ok(_) => {},
            Err(e) => return Err(e),
        }
        if inode.mode & S_IFMT == S_IFLNK {
            self.free_file_storage(ino, inode)
        } else {
            self.orphan_add(ino)
        }
    }

    /// Removes an empty directory.
    pub fn remove_dir_inner(
        &mut self,
        parent: u64,
        ino: u64,
        inode: &EfsInode,
        name: &[u8],
        now: u64,
    ) -> (r: Result<(), Error>)
        requires
            old(self).wf(),
            inode.wf(),
            ino > 0,
        ensures
            final(self).wf(),
            final(self).staged_since(old(self)),
            (final(self)@, r) == dirmodel::remove_dir(old(self)@, parent, ino, inode@, name@, now),
    {
        proof {
            reveal(dirmodel::remove_dir);
        }
        match self.free_file_storage(ino, inode) {
            Ok(_) => {},
            Err(e) => return Err(e),
        }
        match self.adjust_links(parent, false) {
            Ok(_) => {},
            Err(e) => return Err(e),
        }
        self.count_dir(ino, false);
        self.remove_dir_entry(parent, name, now)
    }

    fn replace_target(&mut self, parent: u64, moved: u64, name: &[u8], now: u64) -> (r: Result<
        (),
        Error,
    >)
        requires
            old(self).wf(),
        ensures
            final(self).wf(),
            final(self).staged_since(old(self)),
            (final(self)@, r) == dirmodel::replace_target(old(self)@, parent, moved, name@, now),
    {
        match self.lookup_in_dir(parent, name) {
            Err(e) => Err(e),
            Ok(None) => Ok(()),
            Ok(Some((victim, _))) => {
                if victim == moved {
                    return Ok(());
                }
                let v = match self.read_inode(victim) {
                    Ok(i) => i,
                    Err(e) => return Err(e),
                };
                if v.mode & S_IFMT == S_IFDIR {
                    return Err(Error::NotAFile);
                }
                self.remove_file_inner(parent, victim, &v, name, now)
            },
        }
    }

    /// Moves an entry from one directory and name to another. A non-directory that has
    /// the new name is replaced.
    pub fn rename_inner(
        &mut self,
        old_parent: u64,
        new_parent: u64,
        ino: u64,
        inode: &EfsInode,
        old_name: &[u8],
        new_name: &[u8],
        now: u64,
    ) -> (r: Result<(), Error>)
        requires
            old(self).wf(),
            inode.wf(),
            new_name@.len() <= 255,
        ensures
            final(self).wf(),
            final(self).staged_since(old(self)),
            (final(self)@, r) == dirmodel::rename(
                old(self)@,
                old_parent,
                new_parent,
                ino,
                inode@,
                old_name@,
                new_name@,
                now,
            ),
    {
        proof {
            reveal(dirmodel::rename);
        }
        match self.replace_target(new_parent, ino, new_name, now) {
            Ok(_) => {},
            Err(e) => return Err(e),
        }
        match self.remove_dir_entry(old_parent, old_name, now) {
            Ok(_) => {},
            Err(e) => return Err(e),
        }
        match self.add_dir_entry(new_parent, new_name, ino, inode.file_type_for_dir_entry(), now) {
            Ok(_) => {},
            Err(e) => return Err(e),
        }
        if inode.mode & S_IFMT == S_IFDIR && old_parent != new_parent {
            match self.update_dotdot_entry(ino, new_parent) {
                Ok(_) => {},
                Err(e) => return Err(e),
            }
            match self.adjust_links(old_parent, false) {
                Ok(_) => {},
                Err(e) => return Err(e),
            }
            return self.adjust_links(new_parent, true);
        }
        Ok(())
    }
}

/// Inode numbers start at 1.
proof fn lemma_alloc_positive(st: model::FsState)
    requires
        model::mounted(st),
    ensures
        model::alloc_inode(st).1 matches Ok(ino) ==> ino > 0,
{
    reveal(model::alloc_inode);
    lemma_alloc_from_positive(st, 0);
}

proof fn lemma_alloc_from_positive(st: model::FsState, g: int)
    requires
        model::mounted(st),
        0 <= g,
    ensures
        model::alloc_inode_from(st, g).1 matches Ok(ino) ==> ino > 0,
    decreases st.bgds.len() - g,
{
    if g < st.bgds.len() {
        lemma_alloc_from_positive(st, g + 1);
        let d = st.bgds[g];
        if model::has_block(st, d.inode_bitmap_block as int) {
            let map = st.pages[st.base + d.inode_bitmap_block];
            let bits = model::usable_bits(st.sb.inodes_per_group);
            super::bitmap::first_free_is_free(map, 0, bits);
            match super::bitmap::first_free(map, 0, bits) {
                Some(bit) => {
                    assert(0 <= g * st.sb.inodes_per_group <= 0xFFFF_FFFF * 0xFFFF_FFFF)
                        by (nonlinear_arith)
                        requires
                            0 <= g <= 0xFFFF_FFFF,
                            0 <= st.sb.inodes_per_group <= 0xFFFF_FFFF,
                    ;
                },
                None => {},
            }
        }
    }
}

} // verus!
