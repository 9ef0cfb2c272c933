//! One file, directory or symbolic link.
use vstd::prelude::*;
use crate::bytes;
use crate::bytes::{sub_vec, write_at, zero_vec};
use crate::error::Error;
use crate::types;
use crate::types::{File, FileAttrs, FileKind, FileTime, FileView};

verus! {

/// Bytes in a page.
pub const PAGE: usize = 4096;

/// A node of the tree.
pub struct Node {
    pub id: u32,
    /// What a directory holds, in the order in which it came.
    pub childs: Vec<u32>,
    /// Backing store of a file, or the target of a symbolic link.
    ///
    /// This is storage, not the file: `file.size` is the authoritative length and
    /// `content` may be longer, because a page writeback stores a whole page. Everything
    /// that reads file data stops at `file.size`.
    pub content: Vec<u8>,
    pub file: File,
}

/// A node seen mathematically.
#[verifier::ext_equal]
pub struct NodeView {
    pub id: u32,
    pub childs: Seq<u32>,
    pub content: Seq<u8>,
    pub file: FileView,
}

impl View for Node {
    type V = NodeView;

    open spec fn view(&self) -> NodeView {
        NodeView {
            id: self.id,
            childs: self.childs@,
            content: self.content@,
            file: self.file@,
        }
    }
}

/// A node just made: empty, stamped with the time `now`.
pub open spec fn fresh(id: u32, name: Seq<char>, kind: FileKind, now: u64) -> NodeView {
    let t = types::file_time_of(now);
    NodeView {
        id,
        childs: Seq::empty(),
        content: Seq::empty(),
        file: FileView {
            name,
            kind,
            size: 0,
            attrs: types::no_attrs(),
            created: Some(t),
            accessed: Some(t),
            modified: Some(t),
        },
    }
}

/// Whether the backing store reaches to the end of the file.
pub open spec fn backed(n: NodeView) -> bool {
    n.file.size <= n.content.len()
}

/// What the file holds.
pub open spec fn data(n: NodeView) -> Seq<u8> {
    n.content.take(n.file.size as int)
}

/// The smaller of two numbers.
pub open spec fn min(a: int, b: int) -> int {
    if a < b {
        a
    } else {
        b
    }
}

/// Up to `count` bytes of the file at `offset`.
pub open spec fn read(n: NodeView, offset: int, count: int) -> Result<Seq<u8>, Error> {
    if n.file.kind != FileKind::File {
        Err(Error::NotAFile)
    } else if offset >= n.file.size {
        Ok(Seq::empty())
    } else {
        Ok(data(n).subrange(offset, min(n.file.size as int, offset + count)))
    }
}

/// `s` with `d` at `off`, longer if `d` reaches past its end.
pub open spec fn overlaid(s: Seq<u8>, off: int, d: Seq<u8>) -> Seq<u8> {
    if off + d.len() <= s.len() {
        bytes::splice(s, off, d)
    } else {
        s.take(off) + d
    }
}

/// The file with `d` written at `offset`, which cannot lie past its end.
pub open spec fn written(n: NodeView, offset: int, d: Seq<u8>) -> Result<NodeView, Error> {
    if n.file.kind != FileKind::File {
        Err(Error::NotAFile)
    } else if offset > n.file.size || offset + d.len() > usize::MAX {
        Err(Error::IoError)
    } else {
        Ok(
            NodeView {
                content: overlaid(n.content, offset, d),
                file: FileView {
                    size: if offset + d.len() > n.file.size {
                        (offset + d.len()) as u64
                    } else {
                        n.file.size
                    },
                    ..n.file
                },
                ..n
            },
        )
    }
}

/// `s` cut or filled with zeros to `size` bytes.
pub open spec fn sized(s: Seq<u8>, size: int) -> Seq<u8> {
    if size <= s.len() {
        s.take(size)
    } else {
        s + bytes::zeros(size - s.len())
    }
}

/// The file cut or extended to `size` bytes.
pub open spec fn truncated(n: NodeView, size: u64) -> Result<NodeView, Error> {
    if n.file.kind != FileKind::File {
        Err(Error::NotAFile)
    } else if size > usize::MAX {
        Err(Error::IoError)
    } else {
        Ok(
            NodeView {
                content: sized(n.content, size as int),
                file: FileView { size, ..n.file },
                ..n
            },
        )
    }
}

/// Page `index` of the file, zero past its end, and how many of its bytes are the file's.
pub open spec fn page(n: NodeView, index: int) -> Result<(Seq<u8>, int), Error> {
    if n.file.kind != FileKind::File {
        Err(Error::NotAFile)
    } else if index * PAGE >= n.file.size {
        Ok((bytes::zeros(PAGE as int), 0))
    } else {
        let start = index * PAGE;
        let valid = min(n.file.size - start, PAGE as int);
        Ok((n.content.subrange(start, start + valid) + bytes::zeros(PAGE - valid), valid))
    }
}

/// The file with `d` stored as page `index`. Its size stays as it is.
pub open spec fn page_stored(n: NodeView, index: int, d: Seq<u8>) -> Result<NodeView, Error> {
    if n.file.kind != FileKind::File {
        Err(Error::NotAFile)
    } else if (index + 1) * PAGE > usize::MAX {
        Err(Error::IoError)
    } else {
        let end = (index + 1) * PAGE;
        let grown = if end > n.content.len() {
            sized(n.content, end)
        } else {
            n.content
        };
        Ok(NodeView { content: bytes::splice(grown, index * PAGE, d), ..n })
    }
}

/// The file grown to `size` bytes, if it was shorter.
pub open spec fn raised(n: NodeView, size: u64) -> Result<NodeView, Error> {
    if n.file.kind != FileKind::File {
        Err(Error::NotAFile)
    } else if size <= n.file.size {
        Ok(n)
    } else if size > usize::MAX {
        Err(Error::IoError)
    } else {
        Ok(
            NodeView {
                content: if size > n.content.len() {
                    sized(n.content, size as int)
                } else {
                    n.content
                },
                file: FileView { size, ..n.file },
                ..n
            },
        )
    }
}

/// What is written can be read back; the rest of the file stays, and the file is as long
/// as it was or as the write made it.
pub proof fn write_then_read(n: NodeView, offset: int, d: Seq<u8>)
    requires
        backed(n),
        offset >= 0,
        written(n, offset, d) is Ok,
    ensures
        ({
            let m = written(n, offset, d)->Ok_0;
            &&& backed(m)
            &&& d.len() > 0 ==> read(m, offset, d.len() as int) == Ok::<Seq<u8>, Error>(d)
            &&& m.file.size == (if offset + d.len() > n.file.size {
                offset + d.len()
            } else {
                n.file.size as int
            })
            &&& forall|i: int|
                0 <= i < n.file.size && !(offset <= i < offset + d.len()) ==> data(m)[i] == data(n)[i]
        }),
{
    let m = written(n, offset, d)->Ok_0;
    if d.len() > 0 {
        assert(data(m).subrange(offset, offset + d.len()) =~= d);
    }
}

/// A stored page reads back as far as it lies within the file; what lies outside the
/// page stays.
pub proof fn page_then_fill(n: NodeView, index: int, d: Seq<u8>)
    requires
        backed(n),
        index >= 0,
        d.len() == PAGE,
        page_stored(n, index, d) is Ok,
    ensures
        ({
            let m = page_stored(n, index, d)->Ok_0;
            let valid = if index * PAGE >= n.file.size {
                0
            } else {
                min(n.file.size - index * PAGE, PAGE as int)
            };
            &&& backed(m)
            &&& m.file.size == n.file.size
            &&& page(m, index) == Ok::<(Seq<u8>, int), Error>(
                (d.take(valid) + bytes::zeros(PAGE - valid), valid),
            )
            &&& forall|i: int|
                0 <= i < n.file.size && !(index * PAGE <= i < (index + 1) * PAGE) ==> data(m)[i]
                    == data(n)[i]
        }),
{
    let m = page_stored(n, index, d)->Ok_0;
    let start = index * PAGE;
    if start >= n.file.size {
        assert(d.take(0) + bytes::zeros(PAGE - 0) =~= bytes::zeros(PAGE as int));
    } else {
        let valid = min(n.file.size - start, PAGE as int);
        assert(m.content.subrange(start, start + valid) =~= d.take(valid));
    }
}

/// Cutting a file and reading it gives what was there before, zeros past the old end of
/// the store.
pub proof fn truncate_then_read(n: NodeView, size: u64)
    requires
        backed(n),
        truncated(n, size) is Ok,
    ensures
        ({
            let m = truncated(n, size)->Ok_0;
            &&& backed(m)
            &&& data(m) == sized(n.content, size as int)
            &&& size <= n.file.size ==> data(m) == data(n).take(size as int)
        }),
{
    let m = truncated(n, size)->Ok_0;
    assert(data(m) =~= sized(n.content, size as int));
    if size <= n.file.size {
        assert(data(m) =~= data(n).take(size as int));
    }
}

/// A read gives the file's bytes from `offset` on, as many as were asked for or as there are
/// before the end of the file: none at or past the end, whatever the store holds there. A page
/// holds the same bytes, and zeros past the end.
pub proof fn reading_ends_with_the_file(n: NodeView, offset: int, count: int, index: int, p: int)
    requires
        backed(n),
        n.file.kind == FileKind::File,
        offset >= 0,
        count >= 0,
        index >= 0,
        p >= 0,
    ensures
        ({
            let r = read(n, offset, count);
            &&& r is Ok
            &&& p < r->Ok_0.len() <==> p < count && offset + p < n.file.size
            &&& p < r->Ok_0.len() ==> r->Ok_0[p] == n.content[offset + p]
        }),
        ({
            let r = page(n, index);
            &&& r is Ok
            &&& r->Ok_0.0.len() == 4096
            &&& p < r->Ok_0.1 <==> p < 4096 && index * 4096 + p < n.file.size
            &&& p < 4096 ==> r->Ok_0.0[p] == (if index * 4096 + p < n.file.size {
                n.content[index * 4096 + p]
            } else {
                0
            })
        }),
{
}

/// A file that grows keeps what it held; the store's bytes stay and zeros follow them. A size
/// that is no larger changes nothing.
pub proof fn raised_keeps_contents(n: NodeView, size: u64)
    requires
        backed(n),
        n.file.kind == FileKind::File,
        size <= usize::MAX,
    ensures
        ({
            let m = raised(n, size)->Ok_0;
            &&& raised(n, size) is Ok
            &&& backed(m)
            &&& m.file.size == (if size > n.file.size {
                size
            } else {
                n.file.size
            })
            &&& m.childs == n.childs
            &&& forall|i: int| 0 <= i < n.content.len() ==> #[trigger] m.content[i] == n.content[i]
            &&& forall|i: int|
                n.content.len() <= i < m.content.len() ==> #[trigger] m.content[i] == 0
        }),
{
}

/// Cuts `v` or fills it with zeros.
pub fn resize(v: &mut Vec<u8>, size: usize)
    ensures
        final(v)@ == sized(old(v)@, size as int),
{
    if size <= v.len() {
        v.truncate(size);
    } else {
        let mut z = zero_vec(size - v.len());
        v.append(&mut z);
    }
    assert(v@ =~= sized(old(v)@, size as int));
}

impl Node {
    /// An empty node.
    pub fn new(id: u32, name: String, kind: FileKind, now: u64) -> (r: Node)
        ensures
            r@ == fresh(id, name@, kind, now),
    {
        let t = FileTime::from_unix_secs(now);
        let r = Node {
            id,
            childs: Vec::new(),
            content: Vec::new(),
            file: File {
                name,
                kind,
                size: 0,
                attrs: FileAttrs::none(),
                created: Some(t),
                accessed: Some(t),
                modified: Some(t),
            },
        };
        assert(r@ =~= fresh(id, name@, kind, now));
        r
    }

    /// Up to `count` bytes of the file at `offset`.
    pub fn read(&self, offset: usize, count: usize) -> (r: Result<Vec<u8>, Error>)
        requires
            backed(self@),
        ensures
            types::bytes_of(r) == read(self@, offset as int, count as int),
    {
        if self.file.kind != FileKind::File {
            return Err(Error::NotAFile);
        }
        assert(self.content.len() == self.content@.len());
        let size: usize = self.file.size as usize;
        if offset >= size {
            let v: Vec<u8> = Vec::new();
            assert(v@ =~= Seq::empty());
            return Ok(v);
        }
        let end: usize = if count < size - offset {
            offset + count
        } else {
            size
        };
        let v = sub_vec(self.content.as_slice(), offset, end);
        assert(v@ =~= data(self@).subrange(offset as int, end as int));
        Ok(v)
    }

    /// Writes `d` at `offset`.
    pub fn write(&mut self, offset: usize, d: &[u8]) -> (r: Result<(), Error>)
        requires
            backed(old(self)@),
        ensures
            match written(old(self)@, offset as int, d@) {
                Ok(n) => r is Ok && final(self)@ == n,
                Err(e) => r == Err::<(), Error>(e) && *final(self) == *old(self),
            },
    {
        if self.file.kind != FileKind::File {
            return Err(Error::NotAFile);
        }
        if offset as u64 > self.file.size || d.len() > usize::MAX - offset {
            return Err(Error::IoError);
        }
        assert(self.content.len() == self.content@.len());
        let end: usize = offset + d.len();
        if end <= self.content.len() {
            write_at(&mut self.content, offset, d);
        } else {
            self.content.truncate(offset);
            bytes::push_slice(&mut self.content, d);
        }
        assert(self.content@ =~= overlaid(old(self).content@, offset as int, d@));
        if end as u64 > self.file.size {
            self.file.size = end as u64;
        }
        assert(self@ =~= written(old(self)@, offset as int, d@)->Ok_0);
        Ok(())
    }

    /// Cuts or extends the file.
    pub fn truncate(&mut self, size: u64) -> (r: Result<(), Error>)
        ensures
            match truncated(old(self)@, size) {
                Ok(n) => r is Ok && final(self)@ == n,
                Err(e) => r == Err::<(), Error>(e) && *final(self) == *old(self),
            },
    {
        if self.file.kind != FileKind::File {
            return Err(Error::NotAFile);
        }
        if size > usize::MAX as u64 {
            return Err(Error::IoError);
        }
        resize(&mut self.content, size as usize);
        self.file.size = size;
        assert(self@ =~= truncated(old(self)@, size)->Ok_0);
        Ok(())
    }

    /// Page `index` of the file, and how many of its bytes are the file's.
    pub fn fill_page(&self, index: u64) -> (r: Result<(Vec<u8>, usize), Error>)
        requires
            backed(self@),
        ensures
            match r {
                Ok((b, n)) => page(self@, index as int) == Ok::<(Seq<u8>, int), Error>(
                    (b@, n as int),
                ) && b@.len() == PAGE && n <= PAGE,
                Err(e) => page(self@, index as int) == Err::<(Seq<u8>, int), Error>(e),
            },
    {
        if self.file.kind != FileKind::File {
            return Err(Error::NotAFile);
        }
        if index > 0xf_ffff_ffff_ffff || index * 4096 >= self.file.size {
            return Ok((zero_vec(PAGE), 0));
        }
        assert(self.content.len() == self.content@.len());
        let start: usize = (index * 4096) as usize;
        let size: usize = self.file.size as usize;
        let valid: usize = if size - start < PAGE {
            size - start
        } else {
            PAGE
        };
        let mut b = sub_vec(self.content.as_slice(), start, start + valid);
        let mut z = zero_vec(PAGE - valid);
        b.append(&mut z);
        Ok((b, valid))
    }

    /// Stores page `index` of the file.
    pub fn flush_page(&mut self, index: u64, d: &[u8]) -> (r: Result<(), Error>)
        requires
            d@.len() == PAGE,
        ensures
            match page_stored(old(self)@, index as int, d@) {
                Ok(n) => r is Ok && final(self)@ == n,
                Err(e) => r == Err::<(), Error>(e) && *final(self) == *old(self),
            },
    {
        if self.file.kind != FileKind::File {
            return Err(Error::NotAFile);
        }
        if index >= 0xf_ffff_ffff_ffff || (index + 1) * 4096 > usize::MAX as u64 {
            return Err(Error::IoError);
        }
        let start: usize = (index * 4096) as usize;
        let end: usize = start + PAGE;
        if end > self.content.len() {
            resize(&mut self.content, end);
        }
        write_at(&mut self.content, start, d);
        assert(self@ =~= page_stored(old(self)@, index as int, d@)->Ok_0);
        Ok(())
    }

    /// Grows the file to `size` bytes, if it is shorter.
    pub fn update_size(&mut self, size: u64) -> (r: Result<(), Error>)
        ensures
            match raised(old(self)@, size) {
                Ok(n) => r is Ok && final(self)@ == n,
                Err(e) => r == Err::<(), Error>(e) && *final(self) == *old(self),
            },
    {
        if self.file.kind != FileKind::File {
            return Err(Error::NotAFile);
        }
        if size <= self.file.size {
            return Ok(());
        }
        if size > usize::MAX as u64 {
            return Err(Error::IoError);
        }
        if size as usize > self.content.len() {
            resize(&mut self.content, size as usize);
        }
        self.file.size = size;
        assert(self@ =~= raised(old(self)@, size)->Ok_0);
        Ok(())
    }
}

} // verus!
