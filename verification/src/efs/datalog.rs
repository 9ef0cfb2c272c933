//! Which blocks of file data the operations write straight to the medium, and in which order.
use vstd::prelude::*;
use crate::block_device;
use crate::block_device::{Pages, PageWrite};
use crate::bytes;
use crate::error::Error;
use super::driver;
use super::driver::EfsDriver;
use super::layout::{InodeView, BLOCK_SIZE, INODE_DATA_AREA_SIZE};
use super::model;
use super::model::{FsState, MAX_BULK_PAGES};

verus! {

/// A file block as a page of the device with its contents.
pub open spec fn block_write(st: FsState, block: u64, data: Seq<u8>) -> PageWrite {
    ((st.base + block) as u64, data)
}

/// The data writes of [`model::put_page`] when it succeeds.
pub open spec fn put_page_log(
    st: FsState,
    ino: u64,
    i: InodeView,
    index: u64,
    data: Seq<u8>,
) -> Seq<PageWrite> {
    let st1 = if i.inline() {
        model::convert_inline(st, ino, i).0
    } else {
        st
    };
    match model::ensure_block(st1, ino, (index % 0x1_0000_0000) as u32, false).1 {
        Err(_) => Seq::empty(),
        Ok(p) => seq![block_write(st, p, data)],
    }
}

/// The data writes of [`model::flush_page`] when it succeeds.
pub open spec fn flush_page_log(st: FsState, ino: u64, index: u64, data: Seq<u8>) -> Seq<
    PageWrite,
> {
    match model::read_inode(st, ino) {
        Err(_) => Seq::empty(),
        Ok(i) => put_page_log(model::begin(st), ino, i, index, data),
    }
}

/// The state that [`model::flush_page`] comes to before its transaction ends.
pub open spec fn flush_page_state(st: FsState, ino: u64, index: u64, data: Seq<u8>) -> FsState {
    match model::read_inode(st, ino) {
        Err(_) => st,
        Ok(i) => model::put_page(model::begin(st), ino, i, index, data).0,
    }
}

/// The data writes of [`model::write_extents`] when it succeeds: one for each block.
pub open spec fn extents_log(st: FsState, ino: u64, off: int, data: Seq<u8>, w: int) -> Seq<
    PageWrite,
>
    decreases data.len() - w,
{
    if w >= data.len() {
        Seq::empty()
    } else {
        let skew = (off + w) % 4096;
        let n = model::min(data.len() - w, 4096 - skew);
        match model::ensure_block(st, ino, model::logical_block(off + w), n != 4096) {
            (_, Err(_)) => Seq::empty(),
            (st1, Ok(p)) => match if n != 4096 {
                model::read_block(st1, p as int)
            } else {
                Ok(bytes::zeros(BLOCK_SIZE as int))
            } {
                Err(_) => Seq::empty(),
                Ok(b) => {
                    let block = bytes::splice(b, skew, data.subrange(w, w + n));
                    let st2 = model::write_data(st1, p as int, block).0;
                    if n <= 0 {
                        Seq::empty()
                    } else {
                        seq![block_write(st1, p, block)] + extents_log(st2, ino, off, data, w + n)
                    }
                },
            },
        }
    }
}

/// The data writes of [`model::write_file_data`] when it succeeds. Data that stays in the inode
/// is metadata.
pub open spec fn file_log(st: FsState, ino: u64, off: int, data: Seq<u8>) -> Seq<PageWrite> {
    match model::read_inode(st, ino) {
        Err(_) => Seq::empty(),
        Ok(i) => if data.len() == 0 || (i.inline() && off + data.len() <= INODE_DATA_AREA_SIZE) {
            Seq::empty()
        } else if i.inline() {
            extents_log(model::convert_inline(st, ino, i).0, ino, off, data, 0)
        } else {
            extents_log(st, ino, off, data, 0)
        },
    }
}

/// Pages written to blocks, one for each.
pub open spec fn runs_log(st: FsState, phys: Seq<u64>, data: Pages) -> Seq<PageWrite> {
    Seq::new(phys.len(), |i: int| block_write(st, phys[i], data[i]))
}

/// The data writes of [`model::flush_chunk`] when it succeeds.
pub open spec fn chunk_log(
    st: FsState,
    ino: u64,
    index: Seq<u64>,
    data: Pages,
    size: Option<u64>,
    now: u64,
) -> Seq<PageWrite> {
    match model::ensure_batch(st, ino, model::page_blocks(index), size, now).1 {
        Err(_) => Seq::empty(),
        Ok(phys) => runs_log(st, phys, data),
    }
}

/// What flushing the pages `index[k..]` of a file does to the journal and the medium: one
/// transaction for every 512 pages, each with its data written to the medium before it ends; the
/// first that fails is the last.
pub open spec fn bulk_settled(
    pre: EfsDriver,
    ino: u64,
    index: Seq<u64>,
    data: Pages,
    k: int,
    size: Option<u64>,
    now: u64,
    post: EfsDriver,
    r: Result<(), Error>,
) -> bool
    decreases index.len() - k,
{
    if k >= index.len() {
        post == pre && r is Ok
    } else {
        let end = model::min(k + MAX_BULK_PAGES, index.len() as int);
        ||| r is Err && driver::settled(pre, post, false)
        ||| exists|x: EfsDriver| #[trigger]
            chunk_settled(pre, ino, index, data, k, end, size, now, x) && bulk_settled(
                x,
                ino,
                index,
                data,
                end,
                size,
                now,
                post,
                r,
            )
    }
}

/// What flushing the pages `index[k..end]` does when it succeeds; their data is on the medium
/// then.
pub open spec fn chunk_settled(
    pre: EfsDriver,
    ino: u64,
    index: Seq<u64>,
    data: Pages,
    k: int,
    end: int,
    size: Option<u64>,
    now: u64,
    x: EfsDriver,
) -> bool {
    let hint = if end == index.len() {
        size
    } else {
        None
    };
    let (i, d) = (index.subrange(k, end), data.subrange(k, end));
    let log = chunk_log(model::begin(pre@), ino, i, d, hint, now);
    &&& driver::settled_with(
        pre,
        x,
        model::flush_chunk(model::begin(pre@), ino, i, d, hint, now).0,
        log,
    )
    &&& block_device::all_home(x.site(), log)
}

} // verus!
